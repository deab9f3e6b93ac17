//! Path handling of the file-serving side: locating the funscript that
//! belongs to a video, normalizing request paths, validating client paths,
//! and choosing the response status of a funscript request.
//!
//! Paths are handled as plain strings with `/` as the separator.

use vstd::prelude::*;
use vstd::string::StrSliceExecFns;
use vstd::string::StringExecFns;

verus! {

/// Index of the last occurrence of `c` in `s`; `-1` when there is none.
pub open spec fn last_index_of(s: Seq<char>, c: char) -> int
    decreases s.len(),
{
    if s.len() == 0 {
        -1
    } else if s.last() == c {
        s.len() - 1
    } else {
        last_index_of(s.drop_last(), c)
    }
}

/// The funscript file extension, dot included.
pub open spec fn funscript_ext() -> Seq<char> {
    seq!['.', 'f', 'u', 'n', 's', 'c', 'r', 'i', 'p', 't']
}

/// `base` and `rel` joined with a single separator: an absolute `rel`
/// replaces the base, an empty base leaves `rel` alone, and a base that
/// already ends in a separator gets no second one.
pub open spec fn joined_path(base: Seq<char>, rel: Seq<char>) -> Seq<char> {
    if rel.len() > 0 && rel[0] == '/' {
        rel
    } else if base.len() == 0 {
        rel
    } else if base.last() == '/' {
        base + rel
    } else {
        base.push('/') + rel
    }
}

/// The path with its extension replaced by `.funscript`: everything from
/// the last dot of the final path component on is replaced, and a
/// component without an extension (no dot past its first character) gets
/// the extension appended.
pub open spec fn with_funscript_ext(p: Seq<char>) -> Seq<char> {
    let sep = last_index_of(p, '/');
    let dot = last_index_of(p, '.');
    if dot > sep + 1 {
        p.take(dot) + funscript_ext()
    } else {
        p + funscript_ext()
    }
}

/// The location of the funscript belonging to a requested video path.
pub open spec fn funscript_path_spec(base: Seq<char>, rel: Seq<char>) -> Seq<char> {
    with_funscript_ext(joined_path(base, rel))
}

proof fn lemma_last_index_of_range(s: Seq<char>, c: char)
    ensures
        -1 <= last_index_of(s, c) < s.len(),
    decreases s.len(),
{
    if s.len() > 0 {
        lemma_last_index_of_range(s.drop_last(), c);
    }
}

/// Finds the character index of the last occurrence of `c` in `s`.
fn rfind_char(s: &str, c: char) -> (r: Option<usize>)
    ensures
        match r {
            Some(i) => i == last_index_of(s@, c),
            None => last_index_of(s@, c) == -1,
        },
{
    let n = s.unicode_len();
    let ghost v = s@;
    let mut j: usize = n;
    proof {
        assert(v.take(n as int) =~= v);
    }
    while j > 0
        invariant
            j <= n,
            n == v.len(),
            s@ == v,
            last_index_of(v, c) == last_index_of(v.take(j as int), c),
        decreases j,
    {
        proof {
            assert(v.take(j as int).last() == v[j as int - 1]);
            assert(v.take(j as int).drop_last() =~= v.take(j as int - 1));
        }
        if s.get_char(j - 1) == c {
            return Some(j - 1);
        }
        j -= 1;
    }
    proof {
        assert(v.take(0) =~= Seq::<char>::empty());
    }
    None
}

/// Normalizes a request path by removing a single leading slash or
/// backslash, so that handling is consistent however the client phrased
/// the request.
pub fn normalize_path(path: String) -> (r: String)
    ensures
        path@.len() > 0 && (path@[0] == '/' || path@[0] == '\\') ==> r@ == path@.skip(1),
        !(path@.len() > 0 && (path@[0] == '/' || path@[0] == '\\')) ==> r@ == path@,
{
    let s = path.as_str();
    let n = s.unicode_len();
    if n > 0 {
        let c0 = s.get_char(0);
        if c0 == '/' || c0 == '\\' {
            let rest = s.substring_char(1, n);
            proof {
                assert(path@.subrange(1, path@.len() as int) =~= path@.skip(1));
            }
            return rest.to_owned();
        }
    }
    path
}

/// Constructs the path of the funscript belonging to a video: the base
/// directory joined with the requested video path, with the extension
/// replaced by `.funscript`.
pub fn get_funscript_path_for_video(requested_video_path: &str, video_base_path: &str) -> (r:
    Result<String, String>)
    ensures
        r is Ok,
        r->Ok_0@ == funscript_path_spec(video_base_path@, requested_video_path@),
{
    let rel_len = requested_video_path.unicode_len();
    let base_len = video_base_path.unicode_len();
    let rel_absolute = rel_len > 0 && requested_video_path.get_char(0) == '/';
    let joined: String = if rel_absolute || base_len == 0 {
        requested_video_path.to_owned()
    } else {
        let mut s = video_base_path.to_owned();
        if video_base_path.get_char(base_len - 1) != '/' {
            s.append("/");
            proof {
                reveal_strlit("/");
                assert(("/")@ =~= seq!['/']);
                assert(video_base_path@ + ("/")@ =~= video_base_path@.push('/'));
            }
        }
        s.append(requested_video_path);
        s
    };
    let ghost p = joined@;
    let n = joined.as_str().unicode_len();
    let sep = rfind_char(joined.as_str(), '/');
    let dot = rfind_char(joined.as_str(), '.');
    proof {
        lemma_last_index_of_range(p, '/');
        lemma_last_index_of_range(p, '.');
    }
    let sep_next: usize = match sep {
        Some(i) => i + 1,
        None => 0,
    };
    let replace = match dot {
        Some(d) => d > sep_next,
        None => false,
    };
    proof {
        reveal_strlit(".funscript");
        assert((".funscript")@ =~= funscript_ext());
    }
    if replace {
        let d = match dot {
            Some(d) => d,
            None => 0,
        };
        let stem = joined.as_str().substring_char(0, d);
        let r = stem.to_owned().concat(".funscript");
        proof {
            assert(p.subrange(0, d as int) =~= p.take(d as int));
        }
        Ok(r)
    } else {
        let r = joined.concat(".funscript");
        Ok(r)
    }
}

/// The path split at every separator into its components.
pub open spec fn split_slash(s: Seq<char>) -> Seq<Seq<char>>
    decreases s.len(),
{
    if s.len() == 0 {
        seq![Seq::<char>::empty()]
    } else {
        let r = split_slash(s.drop_last());
        if s.last() == '/' {
            r.push(Seq::<char>::empty())
        } else {
            r.update(r.len() - 1, r.last().push(s.last()))
        }
    }
}

/// A client-supplied path is safe to save under: it is relative and no
/// component climbs out of the base directory.
pub open spec fn path_is_safe(s: Seq<char>) -> bool {
    &&& !(s.len() > 0 && s[0] == '/')
    &&& forall|i: int| 0 <= i < split_slash(s).len() ==> #[trigger] split_slash(s)[i] != seq![
        '.',
        '.',
    ]
}

proof fn lemma_split_slash_len(s: Seq<char>)
    ensures
        split_slash(s).len() >= 1,
    decreases s.len(),
{
    if s.len() > 0 {
        lemma_split_slash_len(s.drop_last());
    }
}

/// Checks that a client-supplied path is relative and free of
/// parent-directory components, so that saving under it cannot escape the
/// base directory.
pub fn validate_save_path(p: &str) -> (r: bool)
    ensures
        r == path_is_safe(p@),
{
    let ghost v = p@;
    let n = p.unicode_len();
    if n > 0 && p.get_char(0) == '/' {
        return false;
    }
    // State of the current path component: empty, a single dot, two dots,
    // or anything else.
    let mut state: u8 = 0;
    let mut found_parent = false;
    let mut k: usize = 0;
    proof {
        assert(v.take(0) =~= Seq::<char>::empty());
    }
    while k < n
        invariant
            k <= n,
            n == v.len(),
            p@ == v,
            split_slash(v.take(k as int)).len() >= 1,
            state == 0 <==> split_slash(v.take(k as int)).last() == Seq::<char>::empty(),
            state == 1 <==> split_slash(v.take(k as int)).last() == seq!['.'],
            state == 2 <==> split_slash(v.take(k as int)).last() == seq!['.', '.'],
            found_parent <==> exists|i: int|
                0 <= i < split_slash(v.take(k as int)).len() - 1 && #[trigger] split_slash(
                    v.take(k as int),
                )[i] == seq!['.', '.'],
        decreases n - k,
    {
        proof {
            assert(v.take(k as int + 1).drop_last() =~= v.take(k as int));
            assert(v.take(k as int + 1).last() == v[k as int]);
            lemma_split_slash_len(v.take(k as int));
        }
        let ghost before = split_slash(v.take(k as int));
        let ghost cc = v[k as int];
        let ghost old_state = state;
        let c = p.get_char(k);
        if c == '/' {
            if state == 2 {
                found_parent = true;
            }
            state = 0;
        } else {
            if c == '.' {
                if state == 0 {
                    state = 1;
                } else if state == 1 {
                    state = 2;
                } else {
                    state = 3;
                }
            } else {
                state = 3;
            }
        }
        k += 1;
        proof {
            let after = split_slash(v.take(k as int));
            if cc == '/' {
                assert(after == before.push(Seq::<char>::empty()));
                assert(forall|i: int| 0 <= i < before.len() ==> after[i] == #[trigger] before[i]);
                assert(after.last() == Seq::<char>::empty());
                if old_state == 2 {
                    assert(after[before.len() - 1] == seq!['.', '.']);
                }
                assert(Seq::<char>::empty() != seq!['.'] && Seq::<char>::empty() != seq![
                    '.',
                    '.',
                ]);
            } else {
                assert(after == before.update(before.len() - 1, before.last().push(cc)));
                assert(forall|i: int|
                    0 <= i < before.len() - 1 ==> after[i] == #[trigger] before[i]);
                assert(after.len() == before.len());
                let nl = before.last().push(cc);
                assert(after.last() == nl);
                assert(nl.drop_last() =~= before.last());
                assert(nl.last() == cc);
                assert(nl.len() == before.last().len() + 1);
                if old_state == 0 && cc == '.' {
                    assert(nl =~= seq!['.']);
                }
                if old_state == 1 && cc == '.' {
                    assert(nl =~= seq!['.', '.']);
                }
                assert(nl != Seq::<char>::empty());
                assert(nl == seq!['.'] ==> before.last() == Seq::<char>::empty() && cc == '.')
                    by {
                    if nl == seq!['.'] {
                        assert(before.last() =~= nl.drop_last());
                        assert(seq!['.'].drop_last() =~= Seq::<char>::empty());
                        assert(seq!['.'].last() == '.');
                    }
                };
                assert(nl == seq!['.', '.'] ==> before.last() == seq!['.'] && cc == '.') by {
                    if nl == seq!['.', '.'] {
                        assert(before.last() =~= nl.drop_last());
                        assert(seq!['.', '.'].drop_last() =~= seq!['.']);
                        assert(seq!['.', '.'].last() == '.');
                    }
                };
            }
        }
    }
    proof {
        assert(v.take(n as int) =~= v);
        lemma_split_slash_len(v);
    }
    !found_parent && state != 2
}

/// The HTTP status of a funscript response: success exactly when the
/// original funscript was found and parsed; a missing intensity track
/// alone does not fail the response.
pub fn funscript_response_status(original_found: bool) -> (r: u16)
    ensures
        original_found ==> r == 200,
        !original_found ==> r == 404,
{
    if original_found {
        200
    } else {
        404
    }
}

} // verus!
