//! The web interface's build: where its files live, which sources it is built from, and
//! when a stored build is still current.
use vstd::prelude::*;
use vstd::utf8::*;
use crate::digest::{sha256, sha256_hex, spec_hex};
use crate::search::{trim, trim_chars};
use crate::text::{bytes_of, chars_of, string_from_chars, str_eq};

verus! {

/// The web interface rooted at a directory.
#[derive(Debug, Clone)]
pub struct Ui {
    pub dir: String,
}

/// `dir` joined with a relative `name` as `Path::join` does on Unix: a separator is put
/// between them unless `dir` is empty or already ends with one.
pub open spec fn spec_join(dir: Seq<char>, name: Seq<char>) -> Seq<char> {
    if dir.len() == 0 {
        name
    } else if dir.last() == '/' {
        dir + name
    } else {
        dir + seq!['/'] + name
    }
}

/// `dir` joined with the relative `name` (see [`spec_join`]).
pub fn join(dir: &str, name: &str) -> (r: String)
    ensures
        r@ == spec_join(dir@, name@),
{
    let d = chars_of(dir);
    let mut out = String::from_str(dir);
    if d.len() > 0 && d[d.len() - 1] != '/' {
        out.append("/");
        proof {
            reveal_strlit("/");
        }
    }
    proof {
        if d@.len() > 0 {
            assert(d@.last() == d@[d@.len() - 1]);
        }
    }
    out.append(name);
    proof {
        if d@.len() == 0 {
            assert(dir@ =~= Seq::<char>::empty());
            assert(out@ =~= name@);
        }
    }
    out
}

/// The directories never searched for sources.
pub open spec fn spec_skips_dir(name: Seq<char>) -> bool {
    name == "node_modules"@ || name == "dist"@ || name == "dist-ssr"@
}

/// Whether the directory `name` is left out of the source search.
pub fn skips_dir(name: &str) -> (r: bool)
    ensures
        r == spec_skips_dir(name@),
{
    str_eq(name, "node_modules") || str_eq(name, "dist") || str_eq(name, "dist-ssr")
}

/// The extension of a file name as `Path::extension` reads it: what follows the last dot,
/// unless that dot starts the name.
pub open spec fn spec_extension(name: Seq<char>) -> Option<Seq<char>> {
    match crate::search::rfind(name, seq!['.']) {
        Some(i) => if i > 0 { Some(name.skip(i + 1)) } else { None },
        None => None,
    }
}

/// Whether a file with this name is a source of the interface: its extension is `ts` or
/// `tsx`.
pub open spec fn spec_is_source(name: Seq<char>) -> bool {
    spec_extension(name) == Some("ts"@) || spec_extension(name) == Some("tsx"@)
}

/// Whether the file `name` is a source of the interface (see [`spec_is_source`]).
pub fn is_source_file(name: &str) -> (r: bool)
    ensures
        r == spec_is_source(name@),
{
    let n = chars_of(name);
    let mut dot: Vec<char> = Vec::new();
    dot.push('.');
    proof {
        assert(dot@ =~= seq!['.']);
    }
    match crate::search::rfind_chars(&n, &dot) {
        Some(i) => {
            if i == 0 {
                return false;
            }
            let mut ext: Vec<char> = Vec::new();
            assert(i + 1 <= n.len());
            let mut k: usize = i + 1;
            while k < n.len()
                invariant
                    i + 1 <= k <= n@.len(),
                    ext@ == n@.subrange(i + 1, k as int),
                decreases n@.len() - k,
            {
                ext.push(n[k]);
                k += 1;
                proof {
                    assert(ext@ =~= n@.subrange(i + 1, k as int));
                }
            }
            proof {
                assert(ext@ =~= n@.skip(i + 1));
            }
            let e = string_from_chars(ext);
            str_eq(e.as_str(), "ts") || str_eq(e.as_str(), "tsx")
        },
        None => false,
    }
}

/// A relative path with its separators written as `/`.
pub open spec fn spec_slashes(rel: Seq<char>) -> Seq<char> {
    rel.map_values(|c: char| if c == '\\' { '/' } else { c })
}

/// The bytes a source contributes to the fingerprint: its path with `/` separators, a zero
/// byte, its contents, a zero byte.
pub open spec fn spec_frame(sources: Seq<(Seq<char>, Seq<u8>)>) -> Seq<u8>
    decreases sources.len(),
{
    if sources.len() == 0 {
        seq![]
    } else {
        spec_frame(sources.drop_last()) + encode_utf8(spec_slashes(sources.last().0)) + seq![0u8]
            + sources.last().1 + seq![0u8]
    }
}

/// The views of the (relative path, contents) pairs of the sources.
pub open spec fn source_views(v: Seq<(String, Vec<u8>)>) -> Seq<(Seq<char>, Seq<u8>)> {
    v.map_values(|e: (String, Vec<u8>)| (e.0@, e.1@))
}

fn push_bytes(out: &mut Vec<u8>, b: &Vec<u8>)
    ensures
        final(out)@ == old(out)@ + b@,
{
    let ghost before = out@;
    let mut i: usize = 0;
    while i < b.len()
        invariant
            i <= b@.len(),
            out@ == before + b@.take(i as int),
        decreases b@.len() - i,
    {
        out.push(b[i]);
        i += 1;
        proof {
            assert(out@ =~= before + b@.take(i as int));
        }
    }
    proof {
        assert(b@.take(b@.len() as int) =~= b@);
    }
}

fn slashes(rel: &str) -> (r: String)
    ensures
        r@ == spec_slashes(rel@),
{
    let c = chars_of(rel);
    let mut out: Vec<char> = Vec::new();
    let mut i: usize = 0;
    while i < c.len()
        invariant
            c@ == rel@,
            i <= c@.len(),
            out@ == spec_slashes(c@.take(i as int)),
        decreases c@.len() - i,
    {
        out.push(if c[i] == '\\' { '/' } else { c[i] });
        i += 1;
        proof {
            assert(out@ =~= spec_slashes(c@.take(i as int)));
        }
    }
    proof {
        assert(c@.take(c@.len() as int) =~= c@);
    }
    string_from_chars(out)
}

/// The fingerprint of the interface's sources, given in the order they are hashed as
/// (path relative to the interface directory, contents): the lowercase hexadecimal SHA-256
/// of their frames (see [`spec_frame`]).
pub fn source_hash(sources: &Vec<(String, Vec<u8>)>) -> (r: String)
    ensures
        r@ == spec_hex(sha256(spec_frame(source_views(sources@)))),
{
    let ghost sv = source_views(sources@);
    let mut data: Vec<u8> = Vec::new();
    let mut i: usize = 0;
    while i < sources.len()
        invariant
            sv == source_views(sources@),
            i <= sources@.len(),
            data@ == spec_frame(sv.take(i as int)),
        decreases sources@.len() - i,
    {
        let rel = slashes(sources[i].0.as_str());
        let rb = bytes_of(rel.as_str());
        push_bytes(&mut data, &rb);
        data.push(0u8);
        push_bytes(&mut data, &sources[i].1);
        data.push(0u8);
        proof {
            let t = sv.take(i + 1);
            assert(t.drop_last() =~= sv.take(i as int));
            assert(t.last() == sv[i as int]);
            assert(data@ =~= spec_frame(sv.take(i as int)) + encode_utf8(spec_slashes(sv[i as int].0))
                + seq![0u8] + sv[i as int].1 + seq![0u8]);
        }
        i += 1;
    }
    proof {
        assert(sv.take(sv.len() as int) =~= sv);
    }
    sha256_hex(data.as_slice())
}

/// Whether a build can be skipped: its assets exist and the hash stored with them, trimmed,
/// is the current source hash.
pub open spec fn spec_build_is_current(assets_exist: bool, stored: Option<Seq<char>>, hash: Seq<char>) -> bool {
    assets_exist && match stored {
        Some(s) => trim(s) == hash,
        None => false,
    }
}

impl Ui {
    /// The interface of the workspace whose manifest lives in `manifest_dir`: its `ui`
    /// directory.
    pub fn from_workspace(manifest_dir: &str) -> (r: Ui)
        ensures
            r.dir@ == spec_join(manifest_dir@, "ui"@),
    {
        Ui { dir: join(manifest_dir, "ui") }
    }

    /// Where the built assets go.
    pub fn dist_dir(&self) -> (r: String)
        ensures
            r@ == spec_join(self.dir@, "dist"@),
    {
        join(self.dir.as_str(), "dist")
    }

    /// The page whose presence means that the assets were built.
    pub fn index_path(&self) -> (r: String)
        ensures
            r@ == spec_join(spec_join(self.dir@, "dist"@), "index.html"@),
    {
        let d = self.dist_dir();
        join(d.as_str(), "index.html")
    }

    /// Where the hash of the sources of the last build is stored.
    pub fn build_hash_path(&self) -> (r: String)
        ensures
            r@ == spec_join(spec_join(self.dir@, "dist"@), ".build-hash"@),
    {
        let d = self.dist_dir();
        join(d.as_str(), ".build-hash")
    }

    /// Whether the stored build is current (see [`spec_build_is_current`]).
    pub fn build_is_current(assets_exist: bool, stored: Option<&str>, source_hash: &str) -> (r: bool)
        ensures
            r == spec_build_is_current(assets_exist, match stored { Some(s) => Some(s@), None => None }, source_hash@),
    {
        if !assets_exist {
            return false;
        }
        match stored {
            Some(s) => {
                let t = trim_chars(&chars_of(s));
                let ts = string_from_chars(t);
                str_eq(ts.as_str(), source_hash)
            },
            None => false,
        }
    }
}

} // verus!
