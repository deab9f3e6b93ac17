//! The metadata store's data model and the pure decision logic of its
//! maintenance operations: matching orphaned records to files of the same
//! size, finding untracked files, and assembling search queries. The
//! relational store itself and all file-system scanning live outside the
//! library; these functions work on the plain values handed in.

use vstd::prelude::*;
use vstd::string::StrSliceExecFns;

verus! {

/// A video record that may have lost its file: its id, stored path, and
/// recorded file size.
#[derive(Clone, Debug)]
pub struct OrphanVideoInfo {
    pub id: i64,
    pub path: String,
    pub file_size: i64,
}

/// The full metadata of one video record.
#[derive(Clone, Debug)]
pub struct VideoMetadata {
    pub id: i64,
    pub filename: String,
    pub path: String,
    pub file_size: i64,
    pub avg_intensity: Option<i64>,
    pub max_intensity: Option<i64>,
    pub duration: Option<i64>,
    pub rating: Option<i32>,
    pub has_funscript: bool,
    pub tags: Vec<String>,
}

/// How a video record was obtained: freshly created, found under the
/// requested path, or found by identical file size under another path.
#[derive(Debug)]
pub enum GetOrCreateResult {
    Created(VideoMetadata),
    FoundByPath(VideoMetadata),
    FoundByContent(VideoMetadata),
}

/// A partial metadata update; absent fields keep their stored values.
#[derive(Clone, Debug)]
pub struct VideoMetadataUpdatePayload {
    pub id: i64,
    pub rating: Option<i32>,
    pub tags: Option<Vec<String>>,
    pub avg_intensity: Option<i64>,
    pub max_intensity: Option<i64>,
    pub duration: Option<i64>,
    pub has_funscript: Option<bool>,
}

/// The request to ensure a video record exists.
#[derive(Clone, Debug)]
pub struct EnsureVideoPayload {
    pub path: String,
    pub filename: String,
}

/// A suggested repair: an orphaned record and the single on-disk file
/// whose size matches it.
#[derive(Clone, Debug)]
pub struct CleanupSuggestion {
    pub orphan_id: i64,
    pub orphan_path: String,
    pub potential_match_path: String,
}

/// The request to point an orphaned record at a new path.
#[derive(Clone, Debug)]
pub struct RemapPayload {
    pub orphan_id: i64,
    pub new_path: String,
}

/// A file or directory entry of the media tree.
#[derive(Debug)]
pub struct FileNode {
    /// Name of the file or directory.
    pub name: String,
    /// Path relative to the root directory.
    pub path: String,
    /// Whether this entry is a directory.
    pub is_dir: bool,
    /// Child entries of a directory; absent for files.
    pub children: Option<Vec<FileNode>>,
}

/// How many disk files have exactly the given size.
pub open spec fn size_match_count(disk: Seq<(String, i64)>, size: i64) -> int
    decreases disk.len(),
{
    if disk.len() == 0 {
        0
    } else {
        size_match_count(disk.drop_last(), size) + if disk.last().1 == size {
            1int
        } else {
            0
        }
    }
}

/// Index of the first disk file with exactly the given size; `-1` when
/// there is none.
pub open spec fn first_size_match(disk: Seq<(String, i64)>, size: i64) -> int
    decreases disk.len(),
{
    if disk.len() == 0 {
        -1
    } else {
        let p = first_size_match(disk.drop_last(), size);
        if p >= 0 {
            p
        } else if disk.last().1 == size {
            disk.len() - 1
        } else {
            -1
        }
    }
}

/// The repair suggestions: for each record whose file is missing and
/// whose size matches exactly one disk file, that file's path.
pub open spec fn suggestions_spec(
    videos: Seq<OrphanVideoInfo>,
    exists_on_disk: Seq<bool>,
    disk: Seq<(String, i64)>,
) -> Seq<CleanupSuggestion>
    recommends
        videos.len() == exists_on_disk.len(),
    decreases videos.len(),
{
    if videos.len() == 0 {
        Seq::empty()
    } else {
        let prev = suggestions_spec(videos.drop_last(), exists_on_disk.drop_last(), disk);
        let v = videos.last();
        if !exists_on_disk.last() && size_match_count(disk, v.file_size) == 1 {
            prev.push(
                CleanupSuggestion {
                    orphan_id: v.id,
                    orphan_path: v.path,
                    potential_match_path: disk[first_size_match(disk, v.file_size)].0,
                },
            )
        } else {
            prev
        }
    }
}

proof fn lemma_size_match_props(disk: Seq<(String, i64)>, size: i64)
    ensures
        0 <= size_match_count(disk, size) <= disk.len(),
        -1 <= first_size_match(disk, size) < disk.len(),
        size_match_count(disk, size) > 0 <==> first_size_match(disk, size) >= 0,
        first_size_match(disk, size) >= 0 ==> disk[first_size_match(disk, size)].1 == size,
    decreases disk.len(),
{
    if disk.len() > 0 {
        lemma_size_match_props(disk.drop_last(), size);
        let p = first_size_match(disk.drop_last(), size);
        if p >= 0 {
            assert(disk.drop_last()[p] == disk[p]);
        }
    }
}

/// Counts the disk files with exactly the given size and finds the first
/// of them.
fn count_size_matches(disk_files: &Vec<(String, i64)>, size: i64) -> (r: (usize, usize))
    ensures
        r.0 == size_match_count(disk_files@, size),
        size_match_count(disk_files@, size) >= 1 ==> r.1 == first_size_match(disk_files@, size),
{
    let ghost d = disk_files@;
    let mut count: usize = 0;
    let mut first: usize = 0;
    let mut j: usize = 0;
    proof {
        assert(d.take(0) =~= Seq::<(String, i64)>::empty());
    }
    while j < disk_files.len()
        invariant
            j <= d.len(),
            disk_files@ == d,
            count == size_match_count(d.take(j as int), size),
            count <= j,
            count >= 1 ==> first == first_size_match(d.take(j as int), size),
        decreases d.len() - j,
    {
        proof {
            assert(d.take(j as int + 1).drop_last() =~= d.take(j as int));
            assert(d.take(j as int + 1).last() == d[j as int]);
            lemma_size_match_props(d.take(j as int), size);
        }
        if disk_files[j].1 == size {
            if count == 0 {
                first = j;
            }
            count += 1;
        }
        j += 1;
    }
    proof {
        assert(d.take(d.len() as int) =~= d);
    }
    (count, first)
}

/// Builds the repair suggestions of a cleanup check: each record whose
/// file is missing on disk (per `exists_on_disk`) and whose recorded size
/// matches exactly one disk file yields a suggestion to remap it to that
/// file.
pub fn cleanup_suggestions(
    videos: &Vec<OrphanVideoInfo>,
    exists_on_disk: &Vec<bool>,
    disk_files: &Vec<(String, i64)>,
) -> (r: Vec<CleanupSuggestion>)
    requires
        videos@.len() == exists_on_disk@.len(),
    ensures
        r@ == suggestions_spec(videos@, exists_on_disk@, disk_files@),
{
    let ghost vs = videos@;
    let ghost ex = exists_on_disk@;
    let mut r: Vec<CleanupSuggestion> = Vec::new();
    let mut i: usize = 0;
    proof {
        assert(vs.take(0) =~= Seq::<OrphanVideoInfo>::empty());
        assert(r@ =~= suggestions_spec(vs.take(0), ex.take(0), disk_files@));
    }
    while i < videos.len()
        invariant
            i <= vs.len(),
            vs.len() == ex.len(),
            videos@ == vs,
            exists_on_disk@ == ex,
            r@ == suggestions_spec(vs.take(i as int), ex.take(i as int), disk_files@),
        decreases vs.len() - i,
    {
        proof {
            assert(vs.take(i as int + 1).drop_last() =~= vs.take(i as int));
            assert(ex.take(i as int + 1).drop_last() =~= ex.take(i as int));
            assert(vs.take(i as int + 1).last() == vs[i as int]);
            assert(ex.take(i as int + 1).last() == ex[i as int]);
            lemma_size_match_props(disk_files@, vs[i as int].file_size);
        }
        if !exists_on_disk[i] {
            let v = &videos[i];
            let (count, first) = count_size_matches(disk_files, v.file_size);
            if count == 1 {
                proof {
                    lemma_size_match_props(disk_files@, vs[i as int].file_size);
                }
                let m = &disk_files[first];
                r.push(
                    CleanupSuggestion {
                        orphan_id: v.id,
                        orphan_path: v.path.clone(),
                        potential_match_path: m.0.clone(),
                    },
                );
            }
        }
        i += 1;
    }
    proof {
        assert(vs.take(vs.len() as int) =~= vs);
        assert(ex.take(ex.len() as int) =~= ex);
    }
    r
}


/// Lexicographic order on character sequences by code point, the order in
/// which path and tag lists are presented.
pub open spec fn lex_le(a: Seq<char>, b: Seq<char>) -> bool
    decreases a.len(),
{
    if a.len() == 0 {
        true
    } else if b.len() == 0 {
        false
    } else if (a[0] as u32) < (b[0] as u32) {
        true
    } else if (a[0] as u32) > (b[0] as u32) {
        false
    } else {
        lex_le(a.drop_first(), b.drop_first())
    }
}

/// Any two character sequences are ordered one way or the other.
pub proof fn lemma_lex_le_total(a: Seq<char>, b: Seq<char>)
    ensures
        lex_le(a, b) || lex_le(b, a),
    decreases a.len(),
{
    if a.len() > 0 && b.len() > 0 && (a[0] as u32) == (b[0] as u32) {
        lemma_lex_le_total(a.drop_first(), b.drop_first());
    }
}

/// Lexicographic order is transitive.
pub proof fn lemma_lex_le_trans(a: Seq<char>, b: Seq<char>, c: Seq<char>)
    requires
        lex_le(a, b),
        lex_le(b, c),
    ensures
        lex_le(a, c),
    decreases a.len(),
{
    if a.len() > 0 {
        if (a[0] as u32) == (b[0] as u32) && (b[0] as u32) == (c[0] as u32) {
            lemma_lex_le_trans(a.drop_first(), b.drop_first(), c.drop_first());
        }
    }
}

/// Compares two strings in lexicographic code-point order.
pub fn str_lex_le(a: &str, b: &str) -> (r: bool)
    ensures
        r == lex_le(a@, b@),
{
    let an = a.unicode_len();
    let bn = b.unicode_len();
    let mut i: usize = 0;
    proof {
        assert(a@.skip(0) =~= a@);
        assert(b@.skip(0) =~= b@);
    }
    while i < an && i < bn
        invariant
            i <= an,
            i <= bn,
            an == a@.len(),
            bn == b@.len(),
            lex_le(a@, b@) == lex_le(a@.skip(i as int), b@.skip(i as int)),
            lex_le(b@, a@) == lex_le(b@.skip(i as int), a@.skip(i as int)),
        decreases an - i,
    {
        proof {
            assert(a@.skip(i as int)[0] == a@[i as int]);
            assert(b@.skip(i as int)[0] == b@[i as int]);
            assert(a@.skip(i as int).drop_first() =~= a@.skip(i as int + 1));
            assert(b@.skip(i as int).drop_first() =~= b@.skip(i as int + 1));
        }
        let ca = a.get_char(i);
        let cb = b.get_char(i);
        if (ca as u32) < (cb as u32) {
            return true;
        }
        if (ca as u32) > (cb as u32) {
            return false;
        }
        i += 1;
    }
    an <= bn
}

/// The sequence is in lexicographic order.
pub open spec fn lex_sorted(s: Seq<String>) -> bool {
    forall|i: int, j: int| 0 <= i < j < s.len() ==> lex_le(#[trigger] s[i]@, #[trigger] s[j]@)
}

/// `x` inserted into `s` before every lexicographically greater element.
pub open spec fn insert_lex_sorted(s: Seq<String>, x: String) -> Seq<String>
    decreases s.len(),
{
    if s.len() == 0 {
        seq![x]
    } else if !lex_le(s.last()@, x@) {
        insert_lex_sorted(s.drop_last(), x).push(s.last())
    } else {
        s.push(x)
    }
}

/// The sequence sorted lexicographically by repeated insertion.
pub open spec fn sort_lex_spec(s: Seq<String>) -> Seq<String>
    decreases s.len(),
{
    if s.len() == 0 {
        Seq::empty()
    } else {
        insert_lex_sorted(sort_lex_spec(s.drop_last()), s.last())
    }
}

proof fn lemma_insert_lex_sorted_props(s: Seq<String>, x: String)
    ensures
        insert_lex_sorted(s, x).len() == s.len() + 1,
        insert_lex_sorted(s, x).to_multiset() == s.to_multiset().insert(x),
        lex_sorted(s) ==> lex_sorted(insert_lex_sorted(s, x)),
        forall|k: int|
            0 <= k < s.len() + 1 ==> (#[trigger] insert_lex_sorted(s, x)[k] == x
                || exists|j: int| 0 <= j < s.len() && insert_lex_sorted(s, x)[k] == s[j]),
    decreases s.len(),
{
    broadcast use vstd::seq_lib::group_to_multiset_ensures;

    if s.len() == 0 {
        assert(seq![x] =~= Seq::<String>::empty().push(x));
    } else if !lex_le(s.last()@, x@) {
        lemma_insert_lex_sorted_props(s.drop_last(), x);
        let r = insert_lex_sorted(s.drop_last(), x).push(s.last());
        assert(s.drop_last().push(s.last()) =~= s);
        if lex_sorted(s) {
            assert(lex_sorted(s.drop_last()));
            lemma_lex_le_total(s.last()@, x@);
            let r0 = insert_lex_sorted(s.drop_last(), x);
            assert forall|i: int, j: int| 0 <= i < j < r.len() implies lex_le(
                #[trigger] r[i]@,
                #[trigger] r[j]@,
            ) by {
                if j < r.len() - 1 {
                    assert(r[i] == r0[i] && r[j] == r0[j]);
                } else {
                    if r0[i] == x {
                    } else {
                        let w = choose|w: int|
                            0 <= w < s.drop_last().len() && r0[i] == s.drop_last()[w];
                        assert(lex_le(s[w]@, s.last()@));
                    }
                }
            }
        }
    } else {
        let r = s.push(x);
        if lex_sorted(s) {
            assert forall|i: int, j: int| 0 <= i < j < r.len() implies lex_le(
                #[trigger] r[i]@,
                #[trigger] r[j]@,
            ) by {
                if j == r.len() - 1 && i < s.len() {
                    if i < s.len() - 1 {
                        assert(lex_le(s[i]@, s.last()@));
                        lemma_lex_le_trans(s[i]@, s.last()@, x@);
                    }
                }
            }
        }
    }
}

proof fn lemma_sort_lex_spec_props(s: Seq<String>)
    ensures
        sort_lex_spec(s).len() == s.len(),
        sort_lex_spec(s).to_multiset() == s.to_multiset(),
        lex_sorted(sort_lex_spec(s)),
    decreases s.len(),
{
    broadcast use vstd::seq_lib::group_to_multiset_ensures;

    if s.len() > 0 {
        lemma_sort_lex_spec_props(s.drop_last());
        lemma_insert_lex_sorted_props(sort_lex_spec(s.drop_last()), s.last());
        assert(s.drop_last().push(s.last()) =~= s);
    }
}

fn insert_string_sorted(out: &mut Vec<String>, x: String)
    ensures
        final(out)@ == insert_lex_sorted(old(out)@, x),
{
    let ghost s = out@;
    let mut idx: usize = out.len();
    proof {
        assert(s.take(s.len() as int) =~= s);
        assert(insert_lex_sorted(s, x) + s.skip(s.len() as int) =~= insert_lex_sorted(s, x));
    }
    while idx > 0 && !str_lex_le(out[idx - 1].as_str(), x.as_str())
        invariant
            out@ == s,
            idx <= s.len(),
            insert_lex_sorted(s, x) == insert_lex_sorted(s.take(idx as int), x) + s.skip(
                idx as int,
            ),
        decreases idx,
    {
        proof {
            let i = idx as int;
            assert(s.take(i).last() == s[i - 1]);
            assert(s.take(i).drop_last() =~= s.take(i - 1));
            assert(insert_lex_sorted(s.take(i), x) == insert_lex_sorted(s.take(i - 1), x).push(
                s[i - 1],
            ));
            assert(insert_lex_sorted(s.take(i - 1), x).push(s[i - 1]) + s.skip(i)
                =~= insert_lex_sorted(s.take(i - 1), x) + s.skip(i - 1));
        }
        idx -= 1;
    }
    proof {
        let i = idx as int;
        if idx > 0 {
            assert(s.take(i).last() == s[i - 1]);
            assert(insert_lex_sorted(s.take(i), x) == s.take(i).push(x));
        } else {
            assert(s.take(0) =~= Seq::<String>::empty());
        }
        assert(insert_lex_sorted(s, x) =~= s.take(i).push(x) + s.skip(i));
    }
    out.insert(idx, x);
    proof {
        assert(out@ =~= insert_lex_sorted(s, x));
    }
}

/// Sorts strings in lexicographic code-point order; the result is a
/// permutation of the input.
pub fn sort_strings(v: &mut Vec<String>)
    ensures
        final(v)@ == sort_lex_spec(old(v)@),
        lex_sorted(final(v)@),
        final(v)@.to_multiset() == old(v)@.to_multiset(),
{
    let ghost input = v@;
    let mut out: Vec<String> = Vec::new();
    let mut i: usize = 0;
    while i < v.len()
        invariant
            v@ == input,
            i <= input.len(),
            out@ == sort_lex_spec(input.take(i as int)),
        decreases input.len() - i,
    {
        let x = v[i].clone();
        insert_string_sorted(&mut out, x);
        proof {
            assert(input.take(i as int + 1).drop_last() =~= input.take(i as int));
        }
        i += 1;
    }
    proof {
        assert(input.take(input.len() as int) =~= input);
        lemma_sort_lex_spec_props(input);
    }
    *v = out;
}

/// The string occurs in the list.
pub open spec fn str_in(db: Seq<String>, s: Seq<char>) -> bool {
    exists|j: int| 0 <= j < db.len() && #[trigger] db[j]@ == s
}

/// The disk paths that no database record tracks, in input order.
pub open spec fn untracked_filter(disk: Seq<String>, db: Seq<String>) -> Seq<String>
    decreases disk.len(),
{
    if disk.len() == 0 {
        Seq::empty()
    } else {
        let prev = untracked_filter(disk.drop_last(), db);
        if !str_in(db, disk.last()@) {
            prev.push(disk.last())
        } else {
            prev
        }
    }
}

fn db_contains_path(db_paths: &Vec<String>, p: &String) -> (r: bool)
    ensures
        r == str_in(db_paths@, p@),
{
    let mut j: usize = 0;
    while j < db_paths.len()
        invariant
            j <= db_paths@.len(),
            forall|k: int| 0 <= k < j ==> #[trigger] db_paths@[k]@ != p@,
        decreases db_paths@.len() - j,
    {
        if db_paths[j].eq(p) {
            return true;
        }
        j += 1;
    }
    false
}

/// Finds the disk paths that no database record tracks, sorted
/// lexicographically.
pub fn untracked_files(disk_paths: &Vec<String>, db_paths: &Vec<String>) -> (r: Vec<String>)
    ensures
        r@ == sort_lex_spec(untracked_filter(disk_paths@, db_paths@)),
        lex_sorted(r@),
        r@.to_multiset() == untracked_filter(disk_paths@, db_paths@).to_multiset(),
{
    let ghost dv = disk_paths@;
    let mut filtered: Vec<String> = Vec::new();
    let mut i: usize = 0;
    proof {
        assert(dv.take(0) =~= Seq::<String>::empty());
        assert(filtered@ =~= untracked_filter(dv.take(0), db_paths@));
    }
    while i < disk_paths.len()
        invariant
            disk_paths@ == dv,
            i <= dv.len(),
            filtered@ == untracked_filter(dv.take(i as int), db_paths@),
        decreases dv.len() - i,
    {
        proof {
            assert(dv.take(i as int + 1).drop_last() =~= dv.take(i as int));
            assert(dv.take(i as int + 1).last() == dv[i as int]);
        }
        let p = &disk_paths[i];
        if !db_contains_path(db_paths, p) {
            filtered.push(p.clone());
        }
        i += 1;
    }
    proof {
        assert(dv.take(dv.len() as int) =~= dv);
    }
    let mut r = filtered;
    sort_strings(&mut r);
    proof {
        lemma_sort_lex_spec_props(untracked_filter(dv, db_paths@));
    }
    r
}

/// What a remap request must do: replace a stale record already sitting
/// at the target path before remapping, or remap directly.
#[derive(Clone, Copy, PartialEq, Eq, Structural, Debug)]
pub enum RemapAction {
    /// A record with this id already holds the target path: delete it,
    /// then remap the orphan.
    DeleteThenRemap(i64),
    /// No record holds the target path: remap the orphan directly.
    RemapOnly,
}

/// Decides how to remap an orphaned record, given whether some record
/// already holds the target path.
pub fn remap_decision(existing: Option<i64>) -> (r: RemapAction)
    ensures
        match existing {
            Some(id) => r == RemapAction::DeleteThenRemap(id),
            None => r == RemapAction::RemapOnly,
        },
{
    match existing {
        Some(id) => RemapAction::DeleteThenRemap(id),
        None => RemapAction::RemapOnly,
    }
}

/// The HTTP status with which an ensure-video result is reported: created
/// records report creation, records found under the requested path report
/// success, and records found only by content size report a conflict.
pub fn ensure_video_status(r: &GetOrCreateResult) -> (status: u16)
    ensures
        r is Created ==> status == 201,
        r is FoundByPath ==> status == 200,
        r is FoundByContent ==> status == 409,
{
    match r {
        GetOrCreateResult::Created(_) => 201,
        GetOrCreateResult::FoundByPath(_) => 200,
        GetOrCreateResult::FoundByContent(_) => 409,
    }
}


/// One parameter of an assembled search query, in placeholder order.
#[derive(Clone, Debug)]
pub enum SearchParam {
    /// A text pattern parameter.
    Text(String),
    /// A numeric threshold parameter.
    Number(i64),
}

/// The optional numeric filters of a video search.
#[derive(Clone, Copy, PartialEq, Eq, Structural, Debug)]
pub struct SearchFilters {
    pub min_duration: Option<i64>,
    pub max_duration: Option<i64>,
    pub min_avg_intensity: Option<i64>,
    pub max_avg_intensity: Option<i64>,
}

/// The fixed head of the search statement: selects the matching records
/// with their tags aggregated.
pub open spec fn search_sql_base() -> Seq<char> {
    ("SELECT v.id, v.path, v.filename, v.file_size, v.rating, v.duration, v.avg_intensity, v.max_intensity, v.has_funscript, GROUP_CONCAT(t.name) FROM videos v LEFT JOIN video_tags vt ON v.id = vt.video_id LEFT JOIN tags t ON vt.tag_id = t.id WHERE (v.id IN (SELECT DISTINCT v_inner.id FROM videos v_inner LEFT JOIN video_tags vt_inner ON v_inner.id = vt_inner.video_id LEFT JOIN tags t_inner ON vt_inner.tag_id = t_inner.id WHERE v_inner.filename LIKE ?1 OR t_inner.name LIKE ?1))")@
}

/// The search statement text implied by the chosen filters: the fixed
/// head, one comparison clause per present filter, and the grouping tail.
pub open spec fn search_sql_spec(f: SearchFilters) -> Seq<char> {
    search_sql_base() + (if f.min_duration is Some {
        (" AND v.duration >= ?")@
    } else {
        Seq::<char>::empty()
    }) + (if f.max_duration is Some {
        (" AND v.duration <= ?")@
    } else {
        Seq::<char>::empty()
    }) + (if f.min_avg_intensity is Some {
        (" AND v.avg_intensity >= ?")@
    } else {
        Seq::<char>::empty()
    }) + (if f.max_avg_intensity is Some {
        (" AND v.avg_intensity <= ?")@
    } else {
        Seq::<char>::empty()
    }) + (" GROUP BY v.id")@
}

/// The numeric thresholds of the chosen filters, in placeholder order.
pub open spec fn search_nums_spec(f: SearchFilters) -> Seq<i64> {
    (match f.min_duration {
        Some(v) => seq![v],
        None => Seq::<i64>::empty(),
    }) + (match f.max_duration {
        Some(v) => seq![v],
        None => Seq::<i64>::empty(),
    }) + (match f.min_avg_intensity {
        Some(v) => seq![v],
        None => Seq::<i64>::empty(),
    }) + (match f.max_avg_intensity {
        Some(v) => seq![v],
        None => Seq::<i64>::empty(),
    })
}

/// The parameter is the given text.
pub open spec fn param_is_text(p: SearchParam, s: Seq<char>) -> bool {
    match p {
        SearchParam::Text(t) => t@ == s,
        SearchParam::Number(_) => false,
    }
}

/// The parameter is the given number.
pub open spec fn param_is_number(p: SearchParam, n: i64) -> bool {
    match p {
        SearchParam::Text(_) => false,
        SearchParam::Number(m) => m == n,
    }
}

/// Assembles the text and the parameter list of a video search: a
/// contains-pattern over filenames and tag names, plus one comparison per
/// present numeric filter.
pub fn build_search_query(query: &str, filters: &SearchFilters) -> (r: (String, Vec<SearchParam>))
    ensures
        r.0@ == search_sql_spec(*filters),
        r.1@.len() == 1 + search_nums_spec(*filters).len(),
        param_is_text(r.1@[0], seq!['%'] + query@ + seq!['%']),
        forall|i: int|
            0 <= i < search_nums_spec(*filters).len() ==> param_is_number(
                #[trigger] r.1@[1 + i],
                search_nums_spec(*filters)[i],
            ),
{
    let mut sql = <String as vstd::string::StringExecFns>::from_str(
        "SELECT v.id, v.path, v.filename, v.file_size, v.rating, v.duration, v.avg_intensity, v.max_intensity, v.has_funscript, GROUP_CONCAT(t.name) FROM videos v LEFT JOIN video_tags vt ON v.id = vt.video_id LEFT JOIN tags t ON vt.tag_id = t.id WHERE (v.id IN (SELECT DISTINCT v_inner.id FROM videos v_inner LEFT JOIN video_tags vt_inner ON v_inner.id = vt_inner.video_id LEFT JOIN tags t_inner ON vt_inner.tag_id = t_inner.id WHERE v_inner.filename LIKE ?1 OR t_inner.name LIKE ?1))",
    );
    let mut pattern = <String as vstd::string::StringExecFns>::from_str("%");
    vstd::string::StringExecFns::append(&mut pattern, query);
    vstd::string::StringExecFns::append(&mut pattern, "%");
    proof {
        reveal_strlit("%");
        assert(("%")@ =~= seq!['%']);
    }
    let mut params: Vec<SearchParam> = Vec::new();
    params.push(SearchParam::Text(pattern));

    if let Some(v) = filters.min_duration {
        vstd::string::StringExecFns::append(&mut sql, " AND v.duration >= ?");
        params.push(SearchParam::Number(v));
    }
    if let Some(v) = filters.max_duration {
        vstd::string::StringExecFns::append(&mut sql, " AND v.duration <= ?");
        params.push(SearchParam::Number(v));
    }
    if let Some(v) = filters.min_avg_intensity {
        vstd::string::StringExecFns::append(&mut sql, " AND v.avg_intensity >= ?");
        params.push(SearchParam::Number(v));
    }
    if let Some(v) = filters.max_avg_intensity {
        vstd::string::StringExecFns::append(&mut sql, " AND v.avg_intensity <= ?");
        params.push(SearchParam::Number(v));
    }
    vstd::string::StringExecFns::append(&mut sql, " GROUP BY v.id");
    proof {
        assert(sql@ =~= search_sql_spec(*filters));
        let nums = search_nums_spec(*filters);
        assert(params@.len() == 1 + nums.len());
    }
    (sql, params)
}


/// The lowercase form of a character sequence, as the Unicode lowercasing
/// of the standard library computes it. Named only: the contracts state
/// ordering and emptiness through this name, never its value.
pub uninterp spec fn lower_of(s: Seq<char>) -> Seq<char>;

/// Relies on str::to_lowercase: the result depends on the characters
/// alone, and an empty string stays empty.
#[verifier::external_body]
fn lowercase(s: &str) -> (r: String)
    ensures
        r@ == lower_of(s@),
        s@.len() == 0 ==> r@.len() == 0,
{
    s.to_lowercase()
}

/// Case-insensitive order: lexicographic order of the lowercase forms.
pub open spec fn lower_le(a: Seq<char>, b: Seq<char>) -> bool {
    lex_le(lower_of(a), lower_of(b))
}

/// Compares two strings case-insensitively, by their lowercase forms.
pub fn str_lower_le(a: &str, b: &str) -> (r: bool)
    ensures
        r == lower_le(a@, b@),
{
    let la = lowercase(a);
    let lb = lowercase(b);
    str_lex_le(la.as_str(), lb.as_str())
}

/// The sequence is in case-insensitive lexicographic order.
pub open spec fn lower_sorted(s: Seq<String>) -> bool {
    forall|i: int, j: int| 0 <= i < j < s.len() ==> lower_le(#[trigger] s[i]@, #[trigger] s[j]@)
}

/// `x` inserted into `s` before every element with a strictly greater
/// lowercase form; elements that compare equal keep their place before
/// `x`.
pub open spec fn insert_lower_sorted(s: Seq<String>, x: String) -> Seq<String>
    decreases s.len(),
{
    if s.len() == 0 {
        seq![x]
    } else if !lower_le(s.last()@, x@) {
        insert_lower_sorted(s.drop_last(), x).push(s.last())
    } else {
        s.push(x)
    }
}

/// The sequence sorted case-insensitively by repeated insertion.
pub open spec fn sort_lower_spec(s: Seq<String>) -> Seq<String>
    decreases s.len(),
{
    if s.len() == 0 {
        Seq::empty()
    } else {
        insert_lower_sorted(sort_lower_spec(s.drop_last()), s.last())
    }
}

proof fn lemma_insert_lower_sorted_props(s: Seq<String>, x: String)
    ensures
        insert_lower_sorted(s, x).len() == s.len() + 1,
        insert_lower_sorted(s, x).to_multiset() == s.to_multiset().insert(x),
        lower_sorted(s) ==> lower_sorted(insert_lower_sorted(s, x)),
        forall|k: int|
            0 <= k < s.len() + 1 ==> (#[trigger] insert_lower_sorted(s, x)[k] == x
                || exists|j: int| 0 <= j < s.len() && insert_lower_sorted(s, x)[k] == s[j]),
    decreases s.len(),
{
    broadcast use vstd::seq_lib::group_to_multiset_ensures;

    if s.len() == 0 {
        assert(seq![x] =~= Seq::<String>::empty().push(x));
    } else if !lower_le(s.last()@, x@) {
        lemma_insert_lower_sorted_props(s.drop_last(), x);
        let r = insert_lower_sorted(s.drop_last(), x).push(s.last());
        assert(s.drop_last().push(s.last()) =~= s);
        if lower_sorted(s) {
            assert(lower_sorted(s.drop_last()));
            lemma_lex_le_total(lower_of(s.last()@), lower_of(x@));
            let r0 = insert_lower_sorted(s.drop_last(), x);
            assert forall|i: int, j: int| 0 <= i < j < r.len() implies lower_le(
                #[trigger] r[i]@,
                #[trigger] r[j]@,
            ) by {
                if j < r.len() - 1 {
                    assert(r[i] == r0[i] && r[j] == r0[j]);
                } else {
                    if r0[i] == x {
                    } else {
                        let w = choose|w: int|
                            0 <= w < s.drop_last().len() && r0[i] == s.drop_last()[w];
                        assert(lower_le(s[w]@, s.last()@));
                    }
                }
            }
        }
    } else {
        let r = s.push(x);
        if lower_sorted(s) {
            assert forall|i: int, j: int| 0 <= i < j < r.len() implies lower_le(
                #[trigger] r[i]@,
                #[trigger] r[j]@,
            ) by {
                if j == r.len() - 1 && i < s.len() {
                    if i < s.len() - 1 {
                        assert(lower_le(s[i]@, s.last()@));
                        lemma_lex_le_trans(lower_of(s[i]@), lower_of(s.last()@), lower_of(x@));
                    }
                }
            }
        }
    }
}

proof fn lemma_sort_lower_spec_props(s: Seq<String>)
    ensures
        sort_lower_spec(s).len() == s.len(),
        sort_lower_spec(s).to_multiset() == s.to_multiset(),
        lower_sorted(sort_lower_spec(s)),
    decreases s.len(),
{
    broadcast use vstd::seq_lib::group_to_multiset_ensures;

    if s.len() > 0 {
        lemma_sort_lower_spec_props(s.drop_last());
        lemma_insert_lower_sorted_props(sort_lower_spec(s.drop_last()), s.last());
        assert(s.drop_last().push(s.last()) =~= s);
    }
}

fn insert_string_lower_sorted(out: &mut Vec<String>, x: String)
    ensures
        final(out)@ == insert_lower_sorted(old(out)@, x),
{
    let ghost s = out@;
    let mut idx: usize = out.len();
    proof {
        assert(s.take(s.len() as int) =~= s);
        assert(insert_lower_sorted(s, x) + s.skip(s.len() as int) =~= insert_lower_sorted(s, x));
    }
    while idx > 0 && !str_lower_le(out[idx - 1].as_str(), x.as_str())
        invariant
            out@ == s,
            idx <= s.len(),
            insert_lower_sorted(s, x) == insert_lower_sorted(s.take(idx as int), x) + s.skip(
                idx as int,
            ),
        decreases idx,
    {
        proof {
            let i = idx as int;
            assert(s.take(i).last() == s[i - 1]);
            assert(s.take(i).drop_last() =~= s.take(i - 1));
            assert(insert_lower_sorted(s.take(i), x) == insert_lower_sorted(s.take(i - 1), x).push(
                s[i - 1],
            ));
            assert(insert_lower_sorted(s.take(i - 1), x).push(s[i - 1]) + s.skip(i)
                =~= insert_lower_sorted(s.take(i - 1), x) + s.skip(i - 1));
        }
        idx -= 1;
    }
    proof {
        let i = idx as int;
        if idx > 0 {
            assert(s.take(i).last() == s[i - 1]);
            assert(insert_lower_sorted(s.take(i), x) == s.take(i).push(x));
        } else {
            assert(s.take(0) =~= Seq::<String>::empty());
        }
        assert(insert_lower_sorted(s, x) =~= s.take(i).push(x) + s.skip(i));
    }
    out.insert(idx, x);
    proof {
        assert(out@ =~= insert_lower_sorted(s, x));
    }
}

/// The sequence with every repeated string removed, keeping first
/// occurrences.
pub open spec fn dedup_strings(s: Seq<String>) -> Seq<String>
    decreases s.len(),
{
    if s.len() == 0 {
        Seq::empty()
    } else {
        let prev = dedup_strings(s.drop_last());
        if str_in(s.drop_last(), s.last()@) {
            prev
        } else {
            prev.push(s.last())
        }
    }
}

proof fn lemma_dedup_membership(s: Seq<String>, x: Seq<char>)
    ensures
        str_in(dedup_strings(s), x) <==> str_in(s, x),
    decreases s.len(),
{
    if s.len() > 0 {
        lemma_dedup_membership(s.drop_last(), x);
        let prev = dedup_strings(s.drop_last());
        if str_in(s.drop_last(), s.last()@) {
            assert forall|j: int| 0 <= j < s.len() && #[trigger] s[j]@ == x implies str_in(
                dedup_strings(s),
                x,
            ) by {
                if j == s.len() - 1 {
                    assert(str_in(s.drop_last(), x));
                } else {
                    assert(s.drop_last()[j]@ == x);
                }
            }
        } else {
            let r = prev.push(s.last());
            assert(forall|j: int| 0 <= j < prev.len() ==> r[j] == #[trigger] prev[j]);
            assert(r.last() == s.last());
            assert forall|j: int| 0 <= j < s.len() && #[trigger] s[j]@ == x implies str_in(r, x) by {
                if j == s.len() - 1 {
                    assert(r[r.len() - 1]@ == x);
                } else {
                    assert(s.drop_last()[j]@ == x);
                    assert(str_in(prev, x));
                    let w = choose|w: int| 0 <= w < prev.len() && #[trigger] prev[w]@ == x;
                    assert(r[w]@ == x);
                }
            }
            assert forall|j: int| 0 <= j < r.len() && #[trigger] r[j]@ == x implies str_in(s, x) by {
                if j == r.len() - 1 {
                    assert(s[s.len() - 1]@ == x);
                } else {
                    assert(str_in(s.drop_last(), x));
                    let w = choose|w: int|
                        0 <= w < s.drop_last().len() && #[trigger] s.drop_last()[w]@ == x;
                    assert(s[w]@ == x);
                }
            }
        }
    }
}

/// Merges the predefined tag list with the tags of the store: every tag
/// once, keeping first occurrences, sorted case-insensitively.
pub fn merge_tags(predefined: &Vec<String>, db_tags: &Vec<String>) -> (r: Vec<String>)
    ensures
        r@ == sort_lower_spec(dedup_strings(predefined@ + db_tags@)),
        lower_sorted(r@),
        r@.to_multiset() == dedup_strings(predefined@ + db_tags@).to_multiset(),
{
    let ghost all = predefined@ + db_tags@;
    let mut combined: Vec<String> = Vec::new();
    let mut i: usize = 0;
    proof {
        assert(all.take(0) =~= Seq::<String>::empty());
        assert(combined@ =~= dedup_strings(all.take(0)));
    }
    while i < predefined.len()
        invariant
            i <= predefined@.len(),
            all == predefined@ + db_tags@,
            combined@ == dedup_strings(all.take(i as int)),
        decreases predefined@.len() - i,
    {
        proof {
            assert(all.take(i as int + 1).drop_last() =~= all.take(i as int));
            assert(all.take(i as int + 1).last() == all[i as int]);
            assert(all[i as int] == predefined@[i as int]);
            lemma_dedup_membership(all.take(i as int), all[i as int]@);
        }
        let t = &predefined[i];
        if !db_contains_path(&combined, t) {
            combined.push(t.clone());
        }
        i += 1;
    }
    let mut k: usize = 0;
    while k < db_tags.len()
        invariant
            k <= db_tags@.len(),
            all == predefined@ + db_tags@,
            combined@ == dedup_strings(all.take(predefined@.len() + k as int)),
        decreases db_tags@.len() - k,
    {
        proof {
            let m = predefined@.len() + k as int;
            assert(all.take(m + 1).drop_last() =~= all.take(m));
            assert(all.take(m + 1).last() == all[m]);
            assert(all[m] == db_tags@[k as int]);
            lemma_dedup_membership(all.take(m), all[m]@);
        }
        let t = &db_tags[k];
        if !db_contains_path(&combined, t) {
            combined.push(t.clone());
        }
        k += 1;
    }
    proof {
        assert(all.take(all.len() as int) =~= all);
    }
    let ghost deduped = combined@;
    let mut out: Vec<String> = Vec::new();
    let mut j: usize = 0;
    while j < combined.len()
        invariant
            combined@ == deduped,
            j <= deduped.len(),
            out@ == sort_lower_spec(deduped.take(j as int)),
        decreases deduped.len() - j,
    {
        let x = combined[j].clone();
        insert_string_lower_sorted(&mut out, x);
        proof {
            assert(deduped.take(j as int + 1).drop_last() =~= deduped.take(j as int));
        }
        j += 1;
    }
    proof {
        assert(deduped.take(deduped.len() as int) =~= deduped);
        lemma_sort_lower_spec_props(deduped);
    }
    out
}

/// Directory-listing order: directories before files, and within each
/// group case-insensitive name order.
pub open spec fn node_le(a: FileNode, b: FileNode) -> bool {
    if a.is_dir && !b.is_dir {
        true
    } else if !a.is_dir && b.is_dir {
        false
    } else {
        lower_le(a.name@, b.name@)
    }
}

/// The node sequence is in directory-listing order.
pub open spec fn nodes_sorted(s: Seq<FileNode>) -> bool {
    forall|i: int, j: int| 0 <= i < j < s.len() ==> node_le(#[trigger] s[i], #[trigger] s[j])
}

/// `x` inserted into `s` before every node that lists after it.
pub open spec fn insert_node_sorted(s: Seq<FileNode>, x: FileNode) -> Seq<FileNode>
    decreases s.len(),
{
    if s.len() == 0 {
        seq![x]
    } else if !node_le(s.last(), x) {
        insert_node_sorted(s.drop_last(), x).push(s.last())
    } else {
        s.push(x)
    }
}

/// The node sequence in directory-listing order, by repeated insertion.
pub open spec fn sort_nodes_spec(s: Seq<FileNode>) -> Seq<FileNode>
    decreases s.len(),
{
    if s.len() == 0 {
        Seq::empty()
    } else {
        insert_node_sorted(sort_nodes_spec(s.drop_last()), s.last())
    }
}

proof fn lemma_node_le_total(a: FileNode, b: FileNode)
    ensures
        node_le(a, b) || node_le(b, a),
{
    lemma_lex_le_total(lower_of(a.name@), lower_of(b.name@));
}

proof fn lemma_node_le_trans(a: FileNode, b: FileNode, c: FileNode)
    requires
        node_le(a, b),
        node_le(b, c),
    ensures
        node_le(a, c),
{
    if (a.is_dir == b.is_dir) && (b.is_dir == c.is_dir) {
        lemma_lex_le_trans(lower_of(a.name@), lower_of(b.name@), lower_of(c.name@));
    }
}

proof fn lemma_insert_node_sorted_props(s: Seq<FileNode>, x: FileNode)
    ensures
        insert_node_sorted(s, x).len() == s.len() + 1,
        insert_node_sorted(s, x).to_multiset() == s.to_multiset().insert(x),
        nodes_sorted(s) ==> nodes_sorted(insert_node_sorted(s, x)),
        forall|k: int|
            0 <= k < s.len() + 1 ==> (#[trigger] insert_node_sorted(s, x)[k] == x
                || exists|j: int| 0 <= j < s.len() && insert_node_sorted(s, x)[k] == s[j]),
    decreases s.len(),
{
    broadcast use vstd::seq_lib::group_to_multiset_ensures;

    if s.len() == 0 {
        assert(seq![x] =~= Seq::<FileNode>::empty().push(x));
    } else if !node_le(s.last(), x) {
        lemma_insert_node_sorted_props(s.drop_last(), x);
        let r = insert_node_sorted(s.drop_last(), x).push(s.last());
        assert(s.drop_last().push(s.last()) =~= s);
        if nodes_sorted(s) {
            assert(nodes_sorted(s.drop_last()));
            lemma_node_le_total(s.last(), x);
            let r0 = insert_node_sorted(s.drop_last(), x);
            assert forall|i: int, j: int| 0 <= i < j < r.len() implies node_le(
                #[trigger] r[i],
                #[trigger] r[j],
            ) by {
                if j < r.len() - 1 {
                    assert(r[i] == r0[i] && r[j] == r0[j]);
                } else {
                    if r0[i] == x {
                    } else {
                        let w = choose|w: int|
                            0 <= w < s.drop_last().len() && r0[i] == s.drop_last()[w];
                        assert(node_le(s[w], s.last()));
                    }
                }
            }
        }
    } else {
        let r = s.push(x);
        if nodes_sorted(s) {
            assert forall|i: int, j: int| 0 <= i < j < r.len() implies node_le(
                #[trigger] r[i],
                #[trigger] r[j],
            ) by {
                if j == r.len() - 1 && i < s.len() {
                    if i < s.len() - 1 {
                        assert(node_le(s[i], s.last()));
                        lemma_node_le_trans(s[i], s.last(), x);
                    }
                }
            }
        }
    }
}

proof fn lemma_sort_nodes_spec_props(s: Seq<FileNode>)
    ensures
        sort_nodes_spec(s).len() == s.len(),
        sort_nodes_spec(s).to_multiset() == s.to_multiset(),
        nodes_sorted(sort_nodes_spec(s)),
    decreases s.len(),
{
    broadcast use vstd::seq_lib::group_to_multiset_ensures;

    if s.len() > 0 {
        lemma_sort_nodes_spec_props(s.drop_last());
        lemma_insert_node_sorted_props(sort_nodes_spec(s.drop_last()), s.last());
        assert(s.drop_last().push(s.last()) =~= s);
    }
}

fn node_le_exec(a: &FileNode, b: &FileNode) -> (r: bool)
    ensures
        r == node_le(*a, *b),
{
    if a.is_dir && !b.is_dir {
        true
    } else if !a.is_dir && b.is_dir {
        false
    } else {
        str_lower_le(a.name.as_str(), b.name.as_str())
    }
}

fn insert_node(out: &mut Vec<FileNode>, x: FileNode)
    ensures
        final(out)@ == insert_node_sorted(old(out)@, x),
{
    let ghost s = out@;
    let mut idx: usize = out.len();
    proof {
        assert(s.take(s.len() as int) =~= s);
        assert(insert_node_sorted(s, x) + s.skip(s.len() as int) =~= insert_node_sorted(s, x));
    }
    while idx > 0 && !node_le_exec(&out[idx - 1], &x)
        invariant
            out@ == s,
            idx <= s.len(),
            insert_node_sorted(s, x) == insert_node_sorted(s.take(idx as int), x) + s.skip(
                idx as int,
            ),
        decreases idx,
    {
        proof {
            let i = idx as int;
            assert(s.take(i).last() == s[i - 1]);
            assert(s.take(i).drop_last() =~= s.take(i - 1));
            assert(insert_node_sorted(s.take(i), x) == insert_node_sorted(s.take(i - 1), x).push(
                s[i - 1],
            ));
            assert(insert_node_sorted(s.take(i - 1), x).push(s[i - 1]) + s.skip(i)
                =~= insert_node_sorted(s.take(i - 1), x) + s.skip(i - 1));
        }
        idx -= 1;
    }
    proof {
        let i = idx as int;
        if idx > 0 {
            assert(s.take(i).last() == s[i - 1]);
            assert(insert_node_sorted(s.take(i), x) == s.take(i).push(x));
        } else {
            assert(s.take(0) =~= Seq::<FileNode>::empty());
        }
        assert(insert_node_sorted(s, x) =~= s.take(i).push(x) + s.skip(i));
    }
    out.insert(idx, x);
    proof {
        assert(out@ =~= insert_node_sorted(s, x));
    }
}

/// Sorts the entries of one directory for listing: directories first,
/// then case-insensitive name order within each group. The result is a
/// permutation of the input.
pub fn sort_file_nodes(nodes: Vec<FileNode>) -> (r: Vec<FileNode>)
    ensures
        r@ == sort_nodes_spec(nodes@),
        nodes_sorted(r@),
        r@.to_multiset() == nodes@.to_multiset(),
{
    let ghost input = nodes@;
    let mut rest = nodes;
    let mut out: Vec<FileNode> = Vec::new();
    let ghost mut i: int = 0;
    while rest.len() > 0
        invariant
            0 <= i <= input.len(),
            rest@ =~= input.skip(i),
            out@ == sort_nodes_spec(input.take(i)),
        decreases rest@.len(),
    {
        let x = rest.remove(0);
        proof {
            assert(input.skip(i)[0] == input[i]);
            assert(input.skip(i).remove(0) =~= input.skip(i + 1));
            assert(input.take(i + 1).drop_last() =~= input.take(i));
            assert(input.take(i + 1).last() == input[i]);
        }
        insert_node(&mut out, x);
        proof {
            i = i + 1;
        }
    }
    proof {
        assert(input.skip(i).len() == 0);
        assert(i == input.len());
        assert(input.take(input.len() as int) =~= input);
        lemma_sort_nodes_spec_props(input);
    }
    out
}

} // verus!
