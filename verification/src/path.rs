//! Path validation and normalization.
//!
//! Guest-visible paths are canonicalized to POSIX form: `.` segments and
//! empty segments are dropped, `..` segments pop the previous segment, and a
//! `..` that would climb above the root (or above the start of a relative
//! path) is rejected. Volume paths are additionally confined to a declared
//! base directory.

use vstd::prelude::*;

use crate::error::{MonocoreError, MonocoreResult, MonoutilsError, MonoutilsResult};

verus! {

/// The kinds of paths a normalization call accepts.
#[derive(Debug, Clone, Copy, PartialEq, Eq, Structural)]
pub enum SupportedPathType {
    /// Accept both absolute and relative paths.
    Any,
    /// Accept absolute paths only.
    Absolute,
    /// Accept relative paths only.
    Relative,
}

/// A sequence with a `'/'` appended unless it already ends with one.
pub open spec fn with_trailing_slash(s: Seq<char>) -> Seq<char> {
    if s.len() > 0 && s.last() == '/' {
        s
    } else {
        s.push('/')
    }
}

/// Whether `p` is a prefix of `s`.
pub open spec fn is_prefix_of(p: Seq<char>, s: Seq<char>) -> bool {
    p.len() <= s.len() && s.subrange(0, p.len() as int) == p
}

/// The segments of `s` split on `sep`; empty segments are kept, so the
/// result always holds at least one segment.
pub open spec fn split_on(s: Seq<char>, sep: char) -> Seq<Seq<char>>
    decreases s.len(),
{
    if s.len() == 0 {
        seq![Seq::<char>::empty()]
    } else {
        let r = split_on(s.drop_last(), sep);
        if s.last() == sep {
            r.push(Seq::<char>::empty())
        } else {
            r.update(r.len() - 1, r.last().push(s.last()))
        }
    }
}

/// A split always yields at least one segment.
pub proof fn lemma_split_on_nonempty(s: Seq<char>, sep: char)
    ensures
        split_on(s, sep).len() >= 1,
    decreases s.len(),
{
    if s.len() > 0 {
        lemma_split_on_nonempty(s.drop_last(), sep);
    }
}

/// Once a prefix of the segment list is invalid, the whole list is.
proof fn lemma_norm_segs_none_prefix(segs: Seq<Seq<char>>, j: int)
    requires
        0 <= j <= segs.len(),
        norm_segs(segs.take(j)) is None,
    ensures
        norm_segs(segs) is None,
    decreases segs.len() - j,
{
    if j < segs.len() {
        assert(segs.take(j + 1).drop_last() =~= segs.take(j));
        lemma_norm_segs_none_prefix(segs, j + 1);
    } else {
        assert(segs.take(j) =~= segs);
    }
}

/// Lexical normalization of a segment list: empty and `.` segments are
/// dropped, `..` pops the previous kept segment, and a `..` with nothing
/// left to pop makes the whole path invalid.
pub open spec fn norm_segs(segs: Seq<Seq<char>>) -> Option<Seq<Seq<char>>>
    decreases segs.len(),
{
    if segs.len() == 0 {
        Some(Seq::<Seq<char>>::empty())
    } else {
        match norm_segs(segs.drop_last()) {
            Option::None => Option::None,
            Option::Some(st) => {
                let last = segs.last();
                if last.len() == 0 || last == seq!['.'] {
                    Some(st)
                } else if last == seq!['.', '.'] {
                    if st.len() == 0 {
                        Option::None
                    } else {
                        Some(st.drop_last())
                    }
                } else {
                    Some(st.push(last))
                }
            },
        }
    }
}

/// Segments joined with `'/'` between them.
pub open spec fn join_slash(segs: Seq<Seq<char>>) -> Seq<char>
    decreases segs.len(),
{
    if segs.len() == 0 {
        Seq::<char>::empty()
    } else if segs.len() == 1 {
        segs[0]
    } else {
        join_slash(segs.drop_last()) + seq!['/'] + segs.last()
    }
}

/// An absolute rendering: a leading `'/'`, then the segments joined with
/// `'/'`; with no segments this is just `"/"`.
pub open spec fn abs_render(segs: Seq<Seq<char>>) -> Seq<char> {
    seq!['/'] + join_slash(segs)
}

/// Whether the path begins with `'/'`.
pub open spec fn is_absolute(s: Seq<char>) -> bool {
    s.len() > 0 && s[0] == '/'
}

/// The normalized form of a path, or `None` where the path is rejected:
/// an empty path, a path whose kind does not match `path_type`, or a path
/// whose `..` segments climb above its start.
pub open spec fn normalize_path_spec(s: Seq<char>, path_type: SupportedPathType) -> Option<
    Seq<char>,
> {
    if s.len() == 0 {
        Option::None
    } else if path_type == SupportedPathType::Absolute && !is_absolute(s) {
        Option::None
    } else if path_type == SupportedPathType::Relative && is_absolute(s) {
        Option::None
    } else {
        match norm_segs(split_on(s, '/')) {
            Option::None => Option::None,
            Option::Some(segs) => Some(
                if is_absolute(s) {
                    abs_render(segs)
                } else {
                    join_slash(segs)
                },
            ),
        }
    }
}

/// Whether `p` lies at or below the directory `base`: it equals `base` or
/// continues it past a `'/'`.
pub open spec fn is_descendant_of(p: Seq<char>, base: Seq<char>) -> bool {
    p == base || is_prefix_of(base + seq!['/'], p)
}

/// Whether `s` starts with the characters of `prefix`.
fn str_starts_with(s: &str, prefix: &str) -> (r: bool)
    ensures
        r == is_prefix_of(prefix@, s@),
{
    let n = prefix.unicode_len();
    let m = s.unicode_len();
    if n > m {
        assert(!is_prefix_of(prefix@, s@));
        return false;
    }
    let mut i: usize = 0;
    while i < n
        invariant
            0 <= i <= n <= m,
            n == prefix@.len(),
            m == s@.len(),
            forall|j: int| 0 <= j < i ==> s@[j] == prefix@[j],
        decreases n - i,
    {
        if s.get_char(i) != prefix.get_char(i) {
            assert(s@.subrange(0, n as int)[i as int] != prefix@[i as int]);
            return false;
        }
        i += 1;
    }
    assert(s@.subrange(0, n as int) =~= prefix@);
    true
}

/// Whether the last character of `s` is `'/'`.
fn str_ends_with_slash(s: &str) -> (r: bool)
    ensures
        r == (s@.len() > 0 && s@.last() == '/'),
{
    let n = s.unicode_len();
    if n == 0 {
        false
    } else {
        s.get_char(n - 1) == '/'
    }
}

/// Checks if two paths conflict: one is a parent or child of the other, or
/// they are the same path. Each path is compared as if it ended with `'/'`,
/// so `/data` and `/database` do not conflict.
pub fn paths_overlap(path1: &str, path2: &str) -> (r: bool)
    ensures
        r == (is_prefix_of(with_trailing_slash(path2@), with_trailing_slash(path1@))
            || is_prefix_of(with_trailing_slash(path1@), with_trailing_slash(path2@))),
{
    proof {
        reveal_strlit("/");
    }
    let p1 = if str_ends_with_slash(path1) {
        String::from_str(path1)
    } else {
        String::from_str(path1).concat("/")
    };
    let p2 = if str_ends_with_slash(path2) {
        String::from_str(path2)
    } else {
        String::from_str(path2).concat("/")
    };
    proof {
        assert(p1@ =~= with_trailing_slash(path1@));
        assert(p2@ =~= with_trailing_slash(path2@));
    }
    str_starts_with(p1.as_str(), p2.as_str()) || str_starts_with(p2.as_str(), p1.as_str())
}

/// The segments of `s` split on `'/'`.
fn split_segments(s: &str) -> (segs: Vec<String>)
    ensures
        segs@.map_values(|x: String| x@) == split_on(s@, '/'),
{
    let n = s.unicode_len();
    let mut segs: Vec<String> = Vec::new();
    let mut start: usize = 0;
    let mut i: usize = 0;
    proof {
        assert(s@.subrange(0, 0) =~= Seq::<char>::empty());
        assert(segs@.map_values(|x: String| x@).push(s@.subrange(0, 0)) =~= split_on(
            s@.take(0),
            '/',
        ));
    }
    while i < n
        invariant
            0 <= start <= i <= n,
            n == s@.len(),
            segs@.map_values(|x: String| x@).push(s@.subrange(start as int, i as int)) == split_on(
                s@.take(i as int),
                '/',
            ),
        decreases n - i,
    {
        let ghost pre = s@.take(i as int);
        let c = s.get_char(i);
        proof {
            assert(s@.take(i + 1int).drop_last() =~= pre);
            assert(s@.take(i + 1int).last() == c);
            assert(s@.take(i + 1int).len() > 0);
        }
        if c == '/' {
            let seg = String::from_str(s.substring_char(start, i));
            segs.push(seg);
            start = i + 1;
            proof {
                assert(s@.subrange(start as int, i + 1int) =~= Seq::<char>::empty());
                assert(segs@.map_values(|x: String| x@) =~= split_on(pre, '/'));
                assert(segs@.map_values(|x: String| x@).push(
                    s@.subrange(start as int, i + 1int),
                ) =~= split_on(s@.take(i + 1int), '/'));
            }
        } else {
            proof {
                let ghost old_list = segs@.map_values(|x: String| x@).push(
                    s@.subrange(start as int, i as int),
                );
                lemma_split_on_nonempty(pre, '/');
                assert(old_list.last() == s@.subrange(start as int, i as int));
                assert(s@.subrange(start as int, i as int).push(c) =~= s@.subrange(
                    start as int,
                    i + 1int,
                ));
                assert(old_list.update(old_list.len() - 1, old_list.last().push(c)) =~= segs@
                    .map_values(|x: String| x@).push(s@.subrange(start as int, i + 1int)));
            }
        }
        i += 1;
    }
    let last = String::from_str(s.substring_char(start, n));
    segs.push(last);
    proof {
        assert(s@.take(n as int) =~= s@);
        assert(segs@.map_values(|x: String| x@) =~= split_on(s@, '/'));
    }
    segs
}

/// Applies the `.`/`..` rules to a segment list; `None` where a `..` would
/// climb above the start.
fn normalize_segments(segs: &Vec<String>) -> (r: Option<Vec<String>>)
    ensures
        match r {
            Option::Some(st) => norm_segs(segs@.map_values(|x: String| x@)) == Some(
                st@.map_values(|x: String| x@),
            ),
            Option::None => norm_segs(segs@.map_values(|x: String| x@)) is None,
        },
{
    let ghost all = segs@.map_values(|x: String| x@);
    let mut stack: Vec<String> = Vec::new();
    let mut i: usize = 0;
    while i < segs.len()
        invariant
            0 <= i <= segs.len(),
            all == segs@.map_values(|x: String| x@),
            norm_segs(all.take(i as int)) == Some(stack@.map_values(|x: String| x@)),
        decreases segs.len() - i,
    {
        proof {
            assert(all.take(i + 1int).drop_last() =~= all.take(i as int));
            assert(all.take(i + 1int).last() == all[i as int]);
            assert(all[i as int] == segs@[i as int]@);
        }
        let seg = &segs[i];
        let len = seg.as_str().unicode_len();
        let is_dot = len == 1 && seg.as_str().get_char(0) == '.';
        let is_dotdot = len == 2 && seg.as_str().get_char(0) == '.' && seg.as_str().get_char(1)
            == '.';
        proof {
            if is_dot {
                assert(seg@ =~= seq!['.']);
            }
            if is_dotdot {
                assert(seg@ =~= seq!['.', '.']);
            }
            if !is_dot && len == 1 {
                assert(seg@ != seq!['.']) by {
                    assert(seg@[0] != seq!['.'][0]);
                }
            }
            if !is_dotdot && len == 2 {
                assert(seg@ != seq!['.', '.']) by {
                    if seg@[0] == '.' && seg@[1] == '.' {
                        assert(seg@ =~= seq!['.', '.']);
                    }
                }
            }
        }
        if len == 0 || is_dot {
            // dropped
        } else if is_dotdot {
            if stack.len() == 0 {
                proof {
                    assert(norm_segs(all.take(i + 1int)) is None);
                    lemma_norm_segs_none_prefix(all, i + 1int);
                }
                return Option::None;
            }
            let _ = stack.pop();
            proof {
                assert(stack@.map_values(|x: String| x@) =~= norm_segs(
                    all.take(i as int),
                ).unwrap().drop_last());
            }
        } else {
            stack.push(seg.clone());
            proof {
                assert(stack@.map_values(|x: String| x@) =~= norm_segs(
                    all.take(i as int),
                ).unwrap().push(all[i as int]));
            }
        }
        i += 1;
    }
    proof {
        assert(all.take(segs.len() as int) =~= all);
    }
    Option::Some(stack)
}

/// Renders a segment list as a path, with a leading `'/'` when `absolute`.
fn render_path(segs: &Vec<String>, absolute: bool) -> (out: String)
    ensures
        absolute ==> out@ == abs_render(segs@.map_values(|x: String| x@)),
        !absolute ==> out@ == join_slash(segs@.map_values(|x: String| x@)),
{
    proof {
        reveal_strlit("/");
    }
    let ghost all = segs@.map_values(|x: String| x@);
    let mut out = String::new();
    if absolute {
        out.append("/");
    }
    let ghost head: Seq<char> = if absolute {
        seq!['/']
    } else {
        Seq::<char>::empty()
    };
    proof {
        assert(out@ =~= head + join_slash(all.take(0)));
    }
    let mut i: usize = 0;
    while i < segs.len()
        invariant
            0 <= i <= segs.len(),
            all == segs@.map_values(|x: String| x@),
            head == if absolute {
                seq!['/']
            } else {
                Seq::<char>::empty()
            },
            out@ == head + join_slash(all.take(i as int)),
        decreases segs.len() - i,
    {
        proof {
            assert(all.take(i + 1int).drop_last() =~= all.take(i as int));
            assert(all.take(i + 1int).last() == all[i as int]);
            assert(all[i as int] == segs@[i as int]@);
        }
        if i > 0 {
            out.append("/");
        }
        out.append(segs[i].as_str());
        proof {
            reveal_strlit("/");
            if i == 0 {
                assert(all.take(1int) =~= seq![all[0]]);
                assert(join_slash(all.take(1int)) == all[0]);
                assert(out@ =~= head + join_slash(all.take(1int)));
            } else {
                assert(out@ =~= head + join_slash(all.take(i + 1int)));
            }
        }
        i += 1;
    }
    proof {
        assert(all.take(segs.len() as int) =~= all);
    }
    out
}

/// Normalizes a path to canonical POSIX form.
///
/// Empty and `.` segments are dropped, `..` pops the previous segment, and
/// trailing slashes disappear. The call fails with `PathValidation` exactly
/// when the path is empty, when its kind (absolute or relative) is not the
/// requested one, or when a `..` would climb above its start.
pub fn normalize_path(path: &str, path_type: SupportedPathType) -> (r: MonoutilsResult<String>)
    ensures
        match r {
            Result::Ok(out) => normalize_path_spec(path@, path_type) == Some(out@),
            Result::Err(e) => normalize_path_spec(path@, path_type) is None && e matches
                MonoutilsError::PathValidation(_),
        },
{
    let n = path.unicode_len();
    if n == 0 {
        return Result::Err(MonoutilsError::PathValidation(String::from_str(path)));
    }
    let absolute = path.get_char(0) == '/';
    match path_type {
        SupportedPathType::Absolute => {
            if !absolute {
                return Result::Err(MonoutilsError::PathValidation(String::from_str(path)));
            }
        },
        SupportedPathType::Relative => {
            if absolute {
                return Result::Err(MonoutilsError::PathValidation(String::from_str(path)));
            }
        },
        SupportedPathType::Any => {},
    }
    let segs = split_segments(path);
    match normalize_segments(&segs) {
        Option::Some(stack) => Result::Ok(render_path(&stack, absolute)),
        Option::None => Result::Err(MonoutilsError::PathValidation(String::from_str(path))),
    }
}

/// The normalized, base-confined form of a requested volume path, or `None`
/// where the request is rejected.
///
/// An absolute request must normalize to a descendant of the normalized
/// base; a relative request is normalized on its own (so `..` cannot climb
/// above its start) and then joined below the base.
pub open spec fn normalize_volume_path_spec(base: Seq<char>, req: Seq<char>) -> Option<Seq<char>> {
    match normalize_path_spec(base, SupportedPathType::Absolute) {
        Option::None => Option::None,
        Option::Some(nb) => {
            if is_absolute(req) {
                match normalize_path_spec(req, SupportedPathType::Absolute) {
                    Option::None => Option::None,
                    Option::Some(nr) => {
                        if is_descendant_of(nr, nb) {
                            Some(nr)
                        } else {
                            Option::None
                        }
                    },
                }
            } else {
                match normalize_path_spec(req, SupportedPathType::Relative) {
                    Option::None => Option::None,
                    Option::Some(nrel) => {
                        if nrel.len() == 0 {
                            Some(nb)
                        } else {
                            Some(nb + seq!['/'] + nrel)
                        }
                    },
                }
            }
        },
    }
}

/// Every accepted volume path lies at or below the normalized base: a
/// request whose normalized form escapes the base is rejected.
pub proof fn lemma_volume_path_confined(base: Seq<char>, req: Seq<char>)
    ensures
        normalize_volume_path_spec(base, req) matches Some(p) ==> is_descendant_of(
            p,
            normalize_path_spec(base, SupportedPathType::Absolute).unwrap(),
        ),
{
    if normalize_volume_path_spec(base, req) is Some {
        let nb = normalize_path_spec(base, SupportedPathType::Absolute).unwrap();
        let p = normalize_volume_path_spec(base, req).unwrap();
        if !is_absolute(req) {
            let nrel = normalize_path_spec(req, SupportedPathType::Relative).unwrap();
            if nrel.len() > 0 {
                assert((nb + seq!['/']).len() <= p.len());
                assert(p.subrange(0, (nb + seq!['/']).len() as int) =~= nb + seq!['/']);
            }
        }
    }
}

/// Normalizes a requested volume path against a base directory.
///
/// Fails with `PathValidation` exactly when the base does not normalize as
/// an absolute path, when the request does not normalize, or when an
/// absolute request does not land at or below the normalized base.
pub fn normalize_volume_path(base_path: &str, requested_path: &str) -> (r: MonocoreResult<String>)
    ensures
        match r {
            Result::Ok(out) => normalize_volume_path_spec(base_path@, requested_path@) == Some(
                out@,
            ),
            Result::Err(e) => normalize_volume_path_spec(base_path@, requested_path@) is None
                && e matches MonocoreError::PathValidation(_),
        },
{
    proof {
        reveal_strlit("/");
    }
    let nb = match normalize_path(base_path, SupportedPathType::Absolute) {
        Result::Ok(s) => s,
        Result::Err(MonoutilsError::PathValidation(m)) => {
            return Result::Err(MonocoreError::PathValidation(m));
        },
        Result::Err(MonoutilsError::IoError(m)) => {
            return Result::Err(MonocoreError::PathValidation(m));
        },
        Result::Err(MonoutilsError::Custom(m)) => {
            return Result::Err(MonocoreError::PathValidation(m));
        },
    };
    let req_absolute = requested_path.unicode_len() > 0 && requested_path.get_char(0) == '/';
    if req_absolute {
        let nr = match normalize_path(requested_path, SupportedPathType::Absolute) {
            Result::Ok(s) => s,
            Result::Err(MonoutilsError::PathValidation(m)) => {
                return Result::Err(MonocoreError::PathValidation(m));
            },
            Result::Err(MonoutilsError::IoError(m)) => {
                return Result::Err(MonocoreError::PathValidation(m));
            },
            Result::Err(MonoutilsError::Custom(m)) => {
                return Result::Err(MonocoreError::PathValidation(m));
            },
        };
        let nb_slash = nb.clone().concat("/");
        proof {
            assert(nb_slash@ =~= nb@ + seq!['/']);
        }
        if nr == nb || str_starts_with(nr.as_str(), nb_slash.as_str()) {
            Result::Ok(nr)
        } else {
            Result::Err(MonocoreError::PathValidation(nr))
        }
    } else {
        let nrel = match normalize_path(requested_path, SupportedPathType::Relative) {
            Result::Ok(s) => s,
            Result::Err(MonoutilsError::PathValidation(m)) => {
                return Result::Err(MonocoreError::PathValidation(m));
            },
            Result::Err(MonoutilsError::IoError(m)) => {
                return Result::Err(MonocoreError::PathValidation(m));
            },
            Result::Err(MonoutilsError::Custom(m)) => {
                return Result::Err(MonocoreError::PathValidation(m));
            },
        };
        if nrel.as_str().unicode_len() == 0 {
            Result::Ok(nb)
        } else {
            let out = nb.concat("/").concat(nrel.as_str());
            proof {
                assert(out@ =~= nb@ + seq!['/'] + nrel@);
            }
            Result::Ok(out)
        }
    }
}

} // verus!
