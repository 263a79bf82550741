//! Path construction for the asset directory layout
//! `<root>/<version>/Interface/ICONS/<filename>`, and the prefix relations
//! the filesystem operations reason with. Paths are plain strings joined
//! with `/`.

use vstd::prelude::*;

verus! {

/// What the one-character separator literal holds.
pub proof fn slash_facts()
    ensures
        "/"@.len() == 1,
        "/"@[0] == '/',
{
    reveal_strlit("/");
}

/// The asset directory of a version: `<root>/<version>/Interface/ICONS`.
pub open spec fn icons_dir_spec(root: Seq<char>, version: Seq<char>) -> Seq<char> {
    root + "/"@ + version + "/Interface/ICONS"@
}

/// The destination of an icon file inside the asset directory.
pub open spec fn icon_path_spec(root: Seq<char>, version: Seq<char>, name: Seq<char>) -> Seq<
    char,
> {
    icons_dir_spec(root, version) + "/"@ + name
}

/// Builds the asset directory path of a version.
pub fn icons_dir_path(root: &str, version: &str) -> (r: String)
    ensures
        r@ == icons_dir_spec(root@, version@),
{
    let mut s = String::from_str(root);
    s.append("/");
    s.append(version);
    s.append("/Interface/ICONS");
    s
}

/// Builds the destination path of an icon file.
pub fn icon_file_path(root: &str, version: &str, name: &str) -> (r: String)
    ensures
        r@ == icon_path_spec(root@, version@, name@),
{
    let mut s = icons_dir_path(root, version);
    s.append("/");
    s.append(name);
    s
}

/// Whether the sequence is free of path separators.
pub open spec fn no_slash(n: Seq<char>) -> bool {
    forall|i: int| 0 <= i < n.len() ==> n[i] != '/'
}

/// Whether path `p` lies inside the directory tree rooted at `d`.
pub open spec fn is_under(p: Seq<char>, d: Seq<char>) -> bool {
    p.len() > d.len() && p.subrange(0, d.len() as int) == d && p[d.len() as int] == '/'
}

/// An icon file's destination lies inside the version's asset directory.
pub proof fn lemma_icon_path_under(root: Seq<char>, version: Seq<char>, name: Seq<char>)
    ensures
        is_under(icon_path_spec(root, version, name), icons_dir_spec(root, version)),
{
    slash_facts();
    let d = icons_dir_spec(root, version);
    let p = icon_path_spec(root, version, name);
    assert(p.subrange(0, d.len() as int) =~= d);
    assert(p[d.len() as int] == '/');
}

/// Whether path `p` lies inside the directory tree rooted at `d`.
pub fn path_is_under(p: &str, d: &str) -> (r: bool)
    ensures
        r == is_under(p@, d@),
{
    let plen = p.unicode_len();
    let dlen = d.unicode_len();
    if plen <= dlen {
        return false;
    }
    let mut i: usize = 0;
    while i < dlen
        invariant
            plen == p@.len(),
            dlen == d@.len(),
            plen > dlen,
            0 <= i <= dlen,
            forall|j: int| 0 <= j < i ==> p@[j] == d@[j],
        decreases dlen - i,
    {
        if p.get_char(i) != d.get_char(i) {
            proof {
                assert(p@.subrange(0, dlen as int)[i as int] != d@[i as int]);
            }
            return false;
        }
        i = i + 1;
    }
    proof {
        assert(p@.subrange(0, dlen as int) =~= d@);
    }
    p.get_char(dlen) == '/'
}

/// The name under which `path` is an immediate child of the directory
/// `root`: the rest after `root` and one separator, holding no separator of
/// its own. Nothing when `path` is no immediate child of `root`.
pub fn child_name_of(path: &str, root: &str) -> (r: Option<String>)
    ensures
        match r {
            Some(name) => name@.len() > 0 && no_slash(name@) && path@ == root@ + "/"@ + name@,
            None => forall|n: Seq<char>|
                n.len() > 0 && no_slash(n) ==> path@ != root@ + "/"@ + n,
        },
{
    let plen = path.unicode_len();
    let rlen = root.unicode_len();
    if plen <= rlen {
        proof {
            slash_facts();
        }
        return None;
    }
    if plen - rlen <= 1 {
        proof {
            slash_facts();
        }
        return None;
    }
    let mut i: usize = 0;
    while i < rlen
        invariant
            plen == path@.len(),
            rlen == root@.len(),
            plen > rlen + 1,
            0 <= i <= rlen,
            forall|j: int| 0 <= j < i ==> path@[j] == root@[j],
        decreases rlen - i,
    {
        if path.get_char(i) != root.get_char(i) {
            proof {
                slash_facts();
                assert forall|n: Seq<char>| n.len() > 0 && no_slash(n) implies path@ != root@
                    + "/"@ + n by {
                    if path@ == root@ + "/"@ + n {
                        assert(path@[i as int] == root@[i as int]);
                    }
                }
            }
            return None;
        }
        i = i + 1;
    }
    if path.get_char(rlen) != '/' {
        proof {
            slash_facts();
            assert forall|n: Seq<char>| n.len() > 0 && no_slash(n) implies path@ != root@ + "/"@
                + n by {
                if path@ == root@ + "/"@ + n {
                    assert(path@[rlen as int] == '/');
                }
            }
        }
        return None;
    }
    let mut k: usize = rlen + 1;
    while k < plen
        invariant
            plen == path@.len(),
            rlen == root@.len(),
            plen > rlen + 1,
            rlen + 1 <= k <= plen,
            forall|j: int| rlen + 1 <= j < k ==> path@[j] != '/',
        decreases plen - k,
    {
        if path.get_char(k) == '/' {
            proof {
                slash_facts();
                assert forall|n: Seq<char>| n.len() > 0 && no_slash(n) implies path@ != root@
                    + "/"@ + n by {
                    if path@ == root@ + "/"@ + n {
                        assert(path@[k as int] == n[k - rlen - 1]);
                        assert(n[k - rlen - 1] != '/');
                    }
                }
            }
            return None;
        }
        k = k + 1;
    }
    let name = path.substring_char(rlen + 1, plen);
    proof {
        slash_facts();
        assert(path@ =~= root@ + "/"@ + name@);
    }
    Some(String::from_str(name))
}

} // verus!
