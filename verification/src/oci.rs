//! OCI reference naming and the on-disk layout of pulled images.
//!
//! The registry client downloads manifests and layer blobs over HTTPS;
//! that I/O lives outside this crate. Here the deterministic names and
//! paths it uses are computed and pinned down.

use vstd::prelude::*;

verus! {

/// A string with every `'/'` replaced by `'_'`.
pub open spec fn slash_to_underscore(s: Seq<char>) -> Seq<char> {
    Seq::new(
        s.len(),
        |i: int|
            if s[i] == '/' {
                '_'
            } else {
                s[i]
            },
    )
}

/// The deterministic reference name an image is stored under:
/// `<repo_with_slash_replaced>__<tag>`.
pub open spec fn ref_name_spec(repo: Seq<char>, tag: Seq<char>) -> Seq<char> {
    slash_to_underscore(repo) + "__"@ + tag
}

/// Builds the on-disk reference name of an image reference.
pub fn ref_name(repo: &str, tag: &str) -> (r: String)
    ensures
        r@ == ref_name_spec(repo@, tag@),
{
    let n = repo.unicode_len();
    let mut head = String::new();
    let mut i: usize = 0;
    proof {
        reveal_strlit("/");
        reveal_strlit("_");
        assert(head@ =~= slash_to_underscore(repo@).take(0));
    }
    while i < n
        invariant
            0 <= i <= n,
            n == repo@.len(),
            head@ == slash_to_underscore(repo@).take(i as int),
        decreases n - i,
    {
        let c = repo.get_char(i);
        if c == '/' {
            head.append("_");
        } else {
            let piece = repo.substring_char(i, i + 1);
            head.append(piece);
        }
        proof {
            reveal_strlit("_");
            assert(head@ =~= slash_to_underscore(repo@).take(i + 1int));
        }
        i += 1;
    }
    proof {
        assert(slash_to_underscore(repo@).take(n as int) =~= slash_to_underscore(repo@));
    }
    head.concat("__").concat(tag)
}

/// The path of the merged root filesystem tree under a rootfs home:
/// `<home>/<ref_name>/merged`.
pub open spec fn merged_dir_spec(home: Seq<char>, refname: Seq<char>) -> Seq<char> {
    home + "/"@ + refname + "/merged"@
}

/// Builds the merged-tree path for a reference name.
pub fn merged_dir(home: &str, refname: &str) -> (r: String)
    ensures
        r@ == merged_dir_spec(home@, refname@),
{
    String::from_str(home).concat("/").concat(refname).concat("/merged")
}

} // verus!
