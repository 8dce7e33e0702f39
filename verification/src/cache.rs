//! Where a package is kept in the global cache: `packages/{name}_{version}`
//! under the cache directory.
use vstd::prelude::*;
use crate::text::{chars_of, extend_chars, string_of};

verus! {

/// `part` joined onto the path `base` as `Path::join` joins on Unix: a part
/// that starts with `/` replaces the path; otherwise it is appended, with a
/// `/` between unless the path is empty or already ends with one.
pub open spec fn join_path(base: Seq<char>, part: Seq<char>) -> Seq<char> {
    if part.len() > 0 && part[0] == '/' {
        part
    } else if base.len() == 0 || base.last() == '/' {
        base + part
    } else {
        base + "/"@ + part
    }
}

/// The path of a cached package below the cache directory `cache_dir`.
pub open spec fn cache_path(cache_dir: Seq<char>, name: Seq<char>, version: Seq<char>) -> Seq<char> {
    join_path(join_path(cache_dir, "packages"@), name + "_"@ + version)
}

/// Joins `part` onto the path `base` (see `join_path`).
fn join_path_exec(base: &Vec<char>, part: &Vec<char>) -> (r: Vec<char>)
    ensures
        r@ == join_path(base@, part@),
{
    if part.len() > 0 && part[0] == '/' {
        let mut out: Vec<char> = Vec::new();
        extend_chars(&mut out, part);
        assert(out@ =~= part@);
        out
    } else {
        let mut out: Vec<char> = Vec::new();
        extend_chars(&mut out, base);
        assert(out@ =~= base@);
        if !(base.len() == 0 || base[base.len() - 1] == '/') {
            out.push('/');
        }
        extend_chars(&mut out, part);
        proof {
            reveal_strlit("/");
        }
        assert(out@ =~= join_path(base@, part@));
        out
    }
}

/// The path of version `version` of package `name` in the global cache whose
/// directory is `cache_dir`: `{cache_dir}/packages/{name}_{version}`, joined
/// as `Path::join` joins paths on Unix.
pub fn package_cache_path(cache_dir: &str, name: &str, version: &str) -> (r: String)
    ensures
        r@ == cache_path(cache_dir@, name@, version@),
{
    let dir = chars_of(cache_dir);
    let packages = chars_of("packages");
    let root = join_path_exec(&dir, &packages);
    let mut leaf = chars_of(name);
    let u = chars_of("_");
    extend_chars(&mut leaf, &u);
    let v = chars_of(version);
    extend_chars(&mut leaf, &v);
    let out = join_path_exec(&root, &leaf);
    string_of(&out)
}

} // verus!
