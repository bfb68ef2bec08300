//! Model resolution: a local path, a URL, or a Hugging Face repo id all become
//! a local path. Downloads land in a shared cache, so the second run is free.
//!
//! ```text
//! moe run ./model.moe                 a file
//! moe run ~/models/mixtral            a directory of safetensors
//! moe run mistralai/Mixtral-8x7B-v0.1 a Hub repo (optionally @revision)
//! moe run https://host/model.moe      a direct download
//! ```
//!
//! Looking at the disk and downloading happen outside; where things come from, where
//! they go and which are taken is decided here.

use vstd::prelude::*;
use vstd::string::*;
use vstd::utf8::encode_utf8;
use crate::json::{elements, hex_digit, Json, JsonV};
use crate::pack::{ends_in, ends_with};
use crate::route::capped;
use crate::text::{
    bytes_of, chars_of, contains, count, count_of, find, first_at, has, is_at, join, join3, last_part, last_part_of, same, split_once,
    split_once_of, starts_with, strip_end, substring, without_end, Blank,
};

verus! {

/// Where a model spec points.
#[derive(Debug)]
pub enum Source {
    Local(String),
    Url(String),
    Hub { repo: String, rev: String },
}

/// What a [`Source`] holds.
pub enum SourceV {
    Local(Seq<char>),
    Url(Seq<char>),
    Hub { repo: Seq<char>, rev: Seq<char> },
}

impl View for Source {
    type V = SourceV;

    open spec fn view(&self) -> SourceV {
        match *self {
            Source::Local(p) => SourceV::Local(p@),
            Source::Url(u) => SourceV::Url(u@),
            Source::Hub { repo, rev } => SourceV::Hub { repo: repo@, rev: rev@ },
        }
    }
}

/// The files worth downloading from a Hub repo, in the absence of a packed model.
///
/// `tokenizer_config.json` and `chat_template.jinja` are here because a
/// checkpoint's prompt format lives in one or the other, and a format that is
/// never downloaded is a format the engine silently falls back from. They are a
/// few kilobytes next to gigabytes of weights.
pub fn wanted() -> (r: [&'static str; 4])
    ensures
        r@[0]@ == "config.json"@,
        r@[1]@ == "tokenizer.json"@,
        r@[2]@ == "tokenizer_config.json"@,
        r@[3]@ == "chat_template.jinja"@,
{
    ["config.json", "tokenizer.json", "tokenizer_config.json", "chat_template.jinja"]
}

/// Whether a file is worth downloading by its name.
pub open spec fn is_wanted(name: Seq<char>) -> bool {
    name == "config.json"@ || name == "tokenizer.json"@ || name == "tokenizer_config.json"@ || name
        == "chat_template.jinja"@
}

/// A Hub repo, with the revision behind an `@`, or `main`.
pub open spec fn hub_of(spec: Seq<char>) -> SourceV {
    match split_once_of(spec, "@"@) {
        Some((repo, rev)) => SourceV::Hub { repo: strip_end(repo, Blank::Slash), rev },
        None => SourceV::Hub { repo: strip_end(spec, Blank::Slash), rev: "main"@ },
    }
}

/// How many parts slashes cut a text into.
pub open spec fn segments(s: Seq<char>) -> nat {
    count_of(s, '/', s.len()) + 1
}

/// What stands before the revision: a revision may hold slashes of its own.
pub open spec fn repo_part(s: Seq<char>) -> Seq<char> {
    match first_at(s, 0, "@"@) {
        Some(k) => s.subrange(0, k),
        None => s,
    }
}

/// The repo that the address of a Hub model page names.
pub open spec fn page_of(spec: Seq<char>) -> Option<Seq<char>> {
    match split_once_of(spec, "huggingface.co/"@) {
        Some((_, rest)) => {
            let trimmed = strip_end(rest, Blank::Slash);
            if segments(trimmed) == 2 && !crate::text::has(trimmed, "?"@) {
                Some(trimmed)
            } else {
                None
            }
        },
        None => None,
    }
}

/// What a model spec points to. Anything that exists on disk wins; after that two
/// parts such as `owner/name`, with or without a revision, are a repo id, which is
/// why `hf:` exists to force the issue. A Hub model page is a repo, not a file to
/// download.
pub open spec fn classified(spec: Seq<char>, exists: bool) -> SourceV {
    if exists {
        SourceV::Local(spec)
    } else if is_at(spec, 0, "hf:"@) {
        hub_of(spec.subrange("hf:"@.len() as int, spec.len() as int))
    } else if is_at(spec, 0, "https://"@) || is_at(spec, 0, "http://"@) {
        match page_of(spec) {
            Some(repo) => hub_of(repo),
            None => SourceV::Url(spec),
        }
    } else if (segments(spec) == 2 || segments(repo_part(spec)) == 2) && !crate::text::has(spec, "\\"@) && !is_at(
        spec,
        0,
        "."@,
    ) {
        hub_of(spec)
    } else {
        SourceV::Local(spec)
    }
}

fn hub(spec: &str) -> (r: Source)
    ensures
        r@ == hub_of(spec@),
{
    match split_once(spec, "@") {
        Some((repo, rev)) => Source::Hub { repo: without_end(repo.as_str(), Blank::Slash), rev },
        None => Source::Hub { repo: without_end(spec, Blank::Slash), rev: "main".to_owned() },
    }
}

fn two_parts(s: &str) -> (r: bool)
    ensures
        r == (segments(s@) == 2),
{
    count(s, '/') == 1
}

fn before_revision(s: &str) -> (r: String)
    ensures
        r@ == repo_part(s@),
{
    let c = chars_of(s);
    match find(c.as_slice(), 0, "@") {
        Some(k) => substring(c.as_slice(), 0, k),
        None => s.to_owned(),
    }
}

/// Classify a model spec, given whether it exists on disk.
pub fn parse(spec: &str, exists: bool) -> (r: Source)
    ensures
        r@ == classified(spec@, exists),
{
    if exists {
        return Source::Local(spec.to_owned());
    }
    if starts_with(spec, "hf:") {
        let c = chars_of(spec);
        proof {
            reveal_strlit("hf:");
        }
        let rest = crate::text::substring(c.as_slice(), 3, c.len());
        return hub(rest.as_str());
    }
    if starts_with(spec, "https://") || starts_with(spec, "http://") {
        match split_once(spec, "huggingface.co/") {
            Some((_, rest)) => {
                let trimmed = without_end(rest.as_str(), Blank::Slash);
                if two_parts(trimmed.as_str()) && !contains(trimmed.as_str(), "?") {
                    return hub(trimmed.as_str());
                }
            },
            None => {},
        }
        return Source::Url(spec.to_owned());
    }
    let repo = before_revision(spec);
    if (two_parts(spec) || two_parts(repo.as_str())) && !contains(spec, "\\") && !starts_with(spec, ".") {
        return hub(spec);
    }
    Source::Local(spec.to_owned())
}

/// The platforms that keep their caches in different places.
#[derive(Clone, Copy, PartialEq, Eq, Debug, Structural)]
pub enum Platform {
    Windows,
    Mac,
    Other,
}

/// What the cache directory is given by.
#[derive(Clone, Copy, PartialEq, Eq, Debug, Structural)]
pub enum Base {
    /// `MOE_CACHE`.
    Override,
    /// `LOCALAPPDATA`.
    LocalAppData,
    /// `XDG_CACHE_HOME`.
    Xdg,
    /// `HOME`, or `USERPROFILE` where that is not set.
    Home,
    /// The working directory.
    Here,
}

/// Which variables are set in the environment.
#[derive(Clone, Copy, PartialEq, Eq, Debug, Structural)]
pub struct Vars {
    pub moe_cache: bool,
    pub home: bool,
    pub local_app_data: bool,
    pub xdg: bool,
}

/// Root of the download cache: `$MOE_CACHE`, else the platform cache directory. What it
/// is given by, and what stands under that.
pub open spec fn cache_root(p: Platform, v: Vars) -> (Base, Seq<char>) {
    if v.moe_cache {
        (Base::Override, ""@)
    } else if p == Platform::Windows && v.local_app_data {
        (Base::LocalAppData, "moe"@)
    } else if p == Platform::Mac && v.home {
        (Base::Home, "Library/Caches/moe"@)
    } else if p == Platform::Other && v.xdg {
        (Base::Xdg, "moe"@)
    } else if v.home {
        (Base::Home, ".cache/moe"@)
    } else {
        (Base::Here, ".cache/moe"@)
    }
}

/// Root of the download cache: what it is given by, and what stands under that.
pub fn cache_dir(p: Platform, v: Vars) -> (r: (Base, &'static str))
    ensures
        (r.0, r.1@) == cache_root(p, v),
{
    if v.moe_cache {
        (Base::Override, "")
    } else if p == Platform::Windows && v.local_app_data {
        (Base::LocalAppData, "moe")
    } else if p == Platform::Mac && v.home {
        (Base::Home, "Library/Caches/moe")
    } else if p == Platform::Other && v.xdg {
        (Base::Xdg, "moe")
    } else if v.home {
        (Base::Home, ".cache/moe")
    } else {
        (Base::Here, ".cache/moe")
    }
}

/// What is to be done about a source.
#[derive(Debug)]
pub enum Resolve {
    /// What is on disk is used.
    Use,
    /// It is downloaded.
    Fetch,
    /// It cannot be had, and why.
    Refuse(String),
}

/// What a [`Resolve`] holds.
pub enum ResolveV {
    Use,
    Fetch,
    Refuse(Seq<char>),
}

impl View for Resolve {
    type V = ResolveV;

    open spec fn view(&self) -> ResolveV {
        match *self {
            Resolve::Use => ResolveV::Use,
            Resolve::Fetch => ResolveV::Fetch,
            Resolve::Refuse(m) => ResolveV::Refuse(m@),
        }
    }
}

/// What is to be done about a source, given whether it, or its place in the cache, is
/// there. A repo is looked at anew unless that is refused, since it may have changed.
pub open spec fn resolved(s: SourceV, there: bool, offline: bool, place: Seq<char>) -> ResolveV {
    match s {
        SourceV::Local(p) => if there {
            ResolveV::Use
        } else {
            ResolveV::Refuse(p + " does not exist (a Hub model looks like owner/name)"@)
        },
        SourceV::Url(u) => if there {
            ResolveV::Use
        } else if offline {
            ResolveV::Refuse(u + " is not cached and --offline was given"@)
        } else {
            ResolveV::Fetch
        },
        SourceV::Hub { repo, rev } => if !offline {
            ResolveV::Fetch
        } else if there {
            ResolveV::Use
        } else {
            ResolveV::Refuse(repo + (" is not cached at "@ + place + " and --offline was given"@))
        },
    }
}

/// What is to be done about a source.
pub fn resolve(s: &Source, there: bool, offline: bool, place: &str) -> (r: Resolve)
    ensures
        r@ == resolved(s@, there, offline, place@),
{
    match s {
        Source::Local(p) => if there {
            Resolve::Use
        } else {
            Resolve::Refuse(join(p.as_str(), " does not exist (a Hub model looks like owner/name)"))
        },
        Source::Url(u) => if there {
            Resolve::Use
        } else if offline {
            Resolve::Refuse(join(u.as_str(), " is not cached and --offline was given"))
        } else {
            Resolve::Fetch
        },
        Source::Hub { repo, rev } => if !offline {
            Resolve::Fetch
        } else if there {
            Resolve::Use
        } else {
            let tail = join3(" is not cached at ", place, " and --offline was given");
            Resolve::Refuse(join(repo.as_str(), tail.as_str()))
        },
    }
}

/// Whether a character stands in a file name as it is.
pub open spec fn is_plain(c: char) -> bool {
    'a' <= c <= 'z' || 'A' <= c <= 'Z' || '0' <= c <= '9' || c == '-' || c == '.' || c == '_'
}

/// A name with a dash for every character that is not plain.
pub open spec fn sanitized(s: Seq<char>) -> Seq<char> {
    Seq::new(
        s.len(),
        |i: int|
            if is_plain(s[i]) {
                s[i]
            } else {
                '-'
            },
    )
}

/// A name with a dash for every character that is not plain.
pub fn sanitize(s: &str) -> (r: String)
    ensures
        r@ == sanitized(s@),
{
    let c = chars_of(s);
    let mut out: Vec<char> = Vec::new();
    let mut i: usize = 0;
    while i < c.len()
        invariant
            i <= c@.len(),
            out@ == sanitized(c@).take(i as int),
        decreases c.len() - i,
    {
        let x: char = c[i];
        let plain: bool = ('a' <= x && x <= 'z') || ('A' <= x && x <= 'Z') || ('0' <= x && x <= '9') || x == '-' || x == '.'
            || x == '_';
        out.push(
            if plain {
                x
            } else {
                '-'
            },
        );
        i += 1;
        assert(sanitized(c@).take(i as int) =~= sanitized(c@).take(i - 1).push(sanitized(c@)[i - 1]));
    }
    assert(out@ =~= sanitized(c@));
    crate::text::string_of(out.as_slice())
}

/// The FNV-1a hash of the first `n` bytes.
pub open spec fn fnv(b: Seq<u8>, n: nat) -> u64
    decreases n,
{
    if n == 0 || n > b.len() {
        0xcbf2_9ce4_8422_2325
    } else {
        (fnv(b, (n - 1) as nat) ^ (b[n - 1] as u64)).wrapping_mul(0x100_0000_01b3)
    }
}

/// The lowest `n` hexadecimal digits of a number.
pub open spec fn hex_of(x: u64, n: nat) -> Seq<char>
    decreases n,
{
    if n == 0 {
        Seq::empty()
    } else {
        hex_of(x / 16, (n - 1) as nat).push(hex_digit((x % 16) as int))
    }
}

fn hex(x: u64, n: usize) -> (r: Vec<char>)
    ensures
        r@ == hex_of(x, n as nat),
    decreases n,
{
    if n == 0 {
        let r: Vec<char> = Vec::new();
        assert(r@ =~= Seq::empty());
        r
    } else {
        let mut r = hex(x / 16, n - 1);
        let d: u8 = (x % 16) as u8;
        if d < 10 {
            r.push((48 + d) as char);
        } else {
            r.push((87 + d) as char);
        }
        r
    }
}

/// Short stable directory name for a URL: its hash.
pub fn stem(url: &str) -> (r: String)
    ensures
        r@ == hex_of(fnv(encode_utf8(url@), encode_utf8(url@).len()), 16),
{
    let b = bytes_of(url);
    let mut h: u64 = 0xcbf2_9ce4_8422_2325;
    let mut i: usize = 0;
    while i < b.len()
        invariant
            i <= b@.len(),
            h == fnv(b@, i as nat),
        decreases b.len() - i,
    {
        h = (h ^ (b[i] as u64)).wrapping_mul(0x100_0000_01b3);
        i += 1;
    }
    let c = hex(h, 16);
    crate::text::string_of(c.as_slice())
}

/// The name that a URL's file is given: what is behind its last slash.
pub open spec fn named(url: Seq<char>) -> Seq<char> {
    let last = last_part_of(url, Blank::Slash);
    if last.len() == 0 {
        "model"@
    } else {
        last
    }
}

/// The name that a URL's file is given.
pub fn url_name(url: &str) -> (r: String)
    ensures
        r@ == named(url@),
{
    let last = last_part(url, Blank::Slash);
    if last.as_str().is_empty() {
        "model".to_owned()
    } else {
        last
    }
}

/// The name of a repo's directory: two dashes for every slash.
pub open spec fn flattened(repo: Seq<char>, n: nat) -> Seq<char>
    decreases n,
{
    if n == 0 || n > repo.len() {
        Seq::empty()
    } else if repo[n - 1] == '/' {
        flattened(repo, (n - 1) as nat) + seq!['-', '-']
    } else {
        flattened(repo, (n - 1) as nat).push(repo[n - 1])
    }
}

/// The name of a repo's directory.
pub fn repo_dir(repo: &str) -> (r: String)
    ensures
        r@ == flattened(repo@, repo@.len()),
{
    let c = chars_of(repo);
    let mut out: Vec<char> = Vec::new();
    let mut i: usize = 0;
    while i < c.len()
        invariant
            i <= c@.len(),
            out@ == flattened(c@, i as nat),
        decreases c.len() - i,
    {
        if c[i] == '/' {
            let ghost before = out@;
            out.push('-');
            out.push('-');
            assert(out@ =~= before + seq!['-', '-']);
        } else {
            out.push(c[i]);
        }
        i += 1;
    }
    crate::text::string_of(out.as_slice())
}

/// Where the listing of a repo is had.
pub fn listing_url(repo: &str, rev: &str) -> (r: String)
    ensures
        r@ == "https://huggingface.co/api/models/"@ + repo@ + ("/tree/"@ + rev@ + "?recursive=1"@),
{
    let tail = join3("/tree/", rev, "?recursive=1");
    join3("https://huggingface.co/api/models/", repo, tail.as_str())
}

/// Where a file of a repo is had.
pub fn file_url(repo: &str, rev: &str, path: &str) -> (r: String)
    ensures
        r@ == "https://huggingface.co/"@ + repo@ + ("/resolve/"@ + rev@ + ("/"@ + path@)),
{
    let file = join("/", path);
    let tail = join3("/resolve/", rev, file.as_str());
    join3("https://huggingface.co/", repo, tail.as_str())
}

/// What a server's refusal means.
pub open spec fn refusal_of(url: Seq<char>, status: u16) -> Option<Seq<char>> {
    if status == 401 || status == 403 {
        Some(url + ": not accessible. If the model is gated or private, set HF_TOKEN"@)
    } else if status == 404 {
        Some(url + ": not found"@)
    } else {
        None
    }
}

/// What a server's refusal means, where it is one that says so.
pub fn refusal(url: &str, status: u16) -> (r: Option<String>)
    ensures
        match r {
            Some(m) => refusal_of(url@, status) == Some(m@),
            None => refusal_of(url@, status) is None,
        },
{
    if status == 401 || status == 403 {
        Some(join(url, ": not accessible. If the model is gated or private, set HF_TOKEN"))
    } else if status == 404 {
        Some(join(url, ": not found"))
    } else {
        None
    }
}

/// The file that an entry of a listing names, with its size: only files, and only at the
/// top level, since repos keep conversions and demos in subdirectories.
pub open spec fn file_in(e: JsonV) -> Option<(Seq<char>, u64)> {
    match e.field("path"@).as_str() {
        Some(p) if e.field("type"@).as_str() == Some("file"@) && !crate::text::has(p, "/"@) => Some(
            (
                p,
                match e.field("size"@).as_u64() {
                    Some(n) => n,
                    None => 0,
                },
            ),
        ),
        _ => None,
    }
}

/// The files that the first `n` entries of a listing name.
pub open spec fn files_in(v: Seq<JsonV>, n: nat) -> Seq<(Seq<char>, u64)>
    decreases n,
{
    if n == 0 || n > v.len() {
        Seq::empty()
    } else {
        let rest = files_in(v, (n - 1) as nat);
        match file_in(v[n - 1]) {
            Some(f) => rest.push(f),
            None => rest,
        }
    }
}

/// Whether a file is taken: a packed model, or, where the repo has none, weights and
/// what is wanted beside them.
pub open spec fn is_taken(name: Seq<char>, packed: bool) -> bool {
    if packed {
        ends_in(name, ".moe"@)
    } else {
        ends_in(name, ".safetensors"@) || is_wanted(name)
    }
}

/// Whether one of the first `n` files is a packed model.
pub open spec fn has_packed(v: Seq<(Seq<char>, u64)>, n: nat) -> bool {
    exists|i: int| 0 <= i < n && i < v.len() && ends_in((#[trigger] v[i]).0, ".moe"@)
}

/// Whether one of some files holds weights.
pub open spec fn has_weights(v: Seq<(Seq<char>, u64)>) -> bool {
    exists|i: int| 0 <= i < v.len() && (ends_in((#[trigger] v[i]).0, ".safetensors"@) || ends_in(v[i].0, ".moe"@))
}

/// Those of the first `n` files that are taken.
pub open spec fn taken_of(v: Seq<(Seq<char>, u64)>, packed: bool, n: nat) -> Seq<(Seq<char>, u64)>
    decreases n,
{
    if n == 0 || n > v.len() {
        Seq::empty()
    } else {
        let rest = taken_of(v, packed, (n - 1) as nat);
        if is_taken(v[n - 1].0, packed) {
            rest.push(v[n - 1])
        } else {
            rest
        }
    }
}

/// The files taken of a listing.
pub open spec fn snapshot_of(tree: JsonV) -> Seq<(Seq<char>, u64)> {
    let all = files_in(elements(tree), elements(tree).len());
    taken_of(all, has_packed(all, all.len()), all.len())
}

/// What a list of files holds.
pub open spec fn file_views(v: Seq<(String, u64)>) -> Seq<(Seq<char>, u64)> {
    Seq::new(v.len(), |i: int| (v[i].0@, v[i].1))
}

fn wants(name: &str) -> (r: bool)
    ensures
        r == is_wanted(name@),
{
    same(name, "config.json") || same(name, "tokenizer.json") || same(name, "tokenizer_config.json") || same(
        name,
        "chat_template.jinja",
    )
}

fn files(tree: &Json) -> (r: Vec<(String, u64)>)
    ensures
        file_views(r@) == files_in(elements(tree@), elements(tree@).len()),
{
    let mut out: Vec<(String, u64)> = Vec::new();
    let n: usize = tree.count();
    let mut i: usize = 0;
    assert(file_views(out@) =~= Seq::empty());
    while i < n
        invariant
            n == elements(tree@).len(),
            i <= n,
            file_views(out@) == files_in(elements(tree@), i as nat),
        decreases n - i,
    {
        let e: &Json = tree.item(i);
        let is_file: bool = e.field("type").is_str("file");
        match e.field("path").as_str() {
            Some(p) => if is_file && !contains(p, "/") {
                let size: u64 = match e.field("size").as_u64() {
                    Some(n) => n,
                    None => 0,
                };
                let ghost before = file_views(out@);
                out.push((p.to_owned(), size));
                assert(file_views(out@) =~= before.push((p@, size)));
            },
            None => {},
        }
        i += 1;
    }
    out
}

fn any_packed(v: &Vec<(String, u64)>) -> (r: bool)
    ensures
        r == has_packed(file_views(v@), v@.len()),
{
    let mut i: usize = 0;
    while i < v.len()
        invariant
            i <= v@.len(),
            forall|k: int| 0 <= k < i ==> !ends_in((#[trigger] file_views(v@)[k]).0, ".moe"@),
        decreases v.len() - i,
    {
        if ends_with(v[i].0.as_str(), ".moe") {
            assert(ends_in(file_views(v@)[i as int].0, ".moe"@));
            return true;
        }
        i += 1;
    }
    false
}

/// The parts of a Hub repo that inference actually reads, or nothing where it has no
/// weights at the top level.
pub fn snapshot(tree: &Json) -> (r: Option<Vec<(String, u64)>>)
    ensures
        match r {
            Some(v) => file_views(v@) == snapshot_of(tree@) && has_weights(snapshot_of(tree@)),
            None => !has_weights(snapshot_of(tree@)),
        },
{
    let all = files(tree);
    let packed: bool = any_packed(&all);
    let mut out: Vec<(String, u64)> = Vec::new();
    let mut weights: bool = false;
    let mut i: usize = 0;
    let ghost v = file_views(all@);
    assert(file_views(out@) =~= Seq::empty());
    while i < all.len()
        invariant
            i <= all@.len(),
            v == file_views(all@),
            file_views(out@) == taken_of(v, packed, i as nat),
            weights == has_weights(file_views(out@)),
        decreases all.len() - i,
    {
        let name: &str = all[i].0.as_str();
        let model: bool = ends_with(name, ".moe");
        let shard: bool = ends_with(name, ".safetensors");
        let take: bool = if packed {
            model
        } else {
            shard || wants(name)
        };
        assert(v[i as int] == (all@[i as int].0@, all@[i as int].1));
        if take {
            let ghost before = file_views(out@);
            out.push((name.to_owned(), all[i].1));
            let ghost after = file_views(out@);
            assert(after =~= before.push(v[i as int]));
            proof {
                if model || shard {
                    assert(ends_in(after[after.len() - 1].0, ".safetensors"@) || ends_in(
                        after[after.len() - 1].0,
                        ".moe"@,
                    ));
                }
                if has_weights(before) {
                    let k = choose|k: int|
                        0 <= k < before.len() && (ends_in((#[trigger] before[k]).0, ".safetensors"@) || ends_in(
                            before[k].0,
                            ".moe"@,
                        ));
                    assert(after[k] == before[k]);
                }
                if has_weights(after) && !(model || shard) {
                    let k = choose|k: int|
                        0 <= k < after.len() && (ends_in((#[trigger] after[k]).0, ".safetensors"@) || ends_in(
                            after[k].0,
                            ".moe"@,
                        ));
                    assert(k < before.len());
                    assert(before[k] == after[k]);
                }
            }
            weights = weights || model || shard;
        }
        i += 1;
    }
    if weights {
        Some(out)
    } else {
        None
    }
}

/// What is said of a repo without weights.
pub fn no_weights(repo: &str) -> (r: String)
    ensures
        r@ == repo@ + " has no .safetensors or .moe files at the top level"@,
{
    join(repo, " has no .safetensors or .moe files at the top level")
}

/// The bytes of the first `n` files.
pub open spec fn size_of_files(v: Seq<(Seq<char>, u64)>, n: nat) -> nat
    decreases n,
{
    if n == 0 || n > v.len() {
        0
    } else {
        size_of_files(v, (n - 1) as nat) + v[n - 1].1 as nat
    }
}

/// The bytes of those of the first `n` files that are there at their full size.
pub open spec fn size_there(v: Seq<(Seq<char>, u64)>, there: Seq<Option<u64>>, n: nat) -> nat
    decreases n,
{
    if n == 0 || n > v.len() || n > there.len() {
        0
    } else {
        size_there(v, there, (n - 1) as nat) + if there[n - 1] == Some(v[n - 1].1) {
            v[n - 1].1 as nat
        } else {
            0
        }
    }
}

/// How many bytes a snapshot has, and how many of them are there already, given the sizes
/// of what is there.
pub fn sizes(v: &Vec<(String, u64)>, there: &Vec<Option<u64>>) -> (r: (u64, u64))
    requires
        v@.len() == there@.len(),
    ensures
        r.0 == capped(size_of_files(file_views(v@), v@.len())),
        r.1 == capped(size_there(file_views(v@), there@, v@.len())),
{
    let mut total: u64 = 0;
    let mut have: u64 = 0;
    let mut i: usize = 0;
    while i < v.len()
        invariant
            i <= v@.len() == there@.len(),
            total == capped(size_of_files(file_views(v@), i as nat)),
            have == capped(size_there(file_views(v@), there@, i as nat)),
        decreases v.len() - i,
    {
        let size: u64 = v[i].1;
        assert(file_views(v@)[i as int].1 == size);
        total = total.saturating_add(size);
        match there[i] {
            Some(n) => if n == size {
                have = have.saturating_add(size);
            },
            None => {},
        }
        i += 1;
    }
    (total, have)
}

proof fn lemma_taken(v: Seq<(Seq<char>, u64)>, packed: bool, n: nat, k: int)
    requires
        n <= v.len(),
        0 <= k < taken_of(v, packed, n).len(),
    ensures
        is_taken(taken_of(v, packed, n)[k].0, packed),
    decreases n,
{
    if n > 0 {
        let rest = taken_of(v, packed, (n - 1) as nat);
        if k < rest.len() {
            lemma_taken(v, packed, (n - 1) as nat, k);
        }
    }
}

/// A download brings the files the engine reads, and no more: every file taken is weights
/// or one of those wanted by name, and where the repo publishes a packed model, that is
/// all that is taken.
pub proof fn law_only_what_is_read_is_taken(tree: JsonV, k: int)
    requires
        0 <= k < snapshot_of(tree).len(),
    ensures
        ({
            let name = snapshot_of(tree)[k].0;
            let all = files_in(elements(tree), elements(tree).len());
            &&& ends_in(name, ".moe"@) || ends_in(name, ".safetensors"@) || is_wanted(name)
            &&& has_packed(all, all.len()) ==> ends_in(name, ".moe"@)
        }),
{
    let all = files_in(elements(tree), elements(tree).len());
    lemma_taken(all, has_packed(all, all.len()), all.len(), k);
}

proof fn lemma_revision_begins(repo: Seq<char>, rev: Seq<char>, from: int)
    requires
        0 <= from <= repo.len(),
        first_at(repo, from, "@"@) is None,
    ensures
        first_at(repo + "@"@ + rev, from, "@"@) == Some(repo.len() as int),
    decreases repo.len() - from,
{
    reveal_strlit("@");
    let s = repo + "@"@ + rev;
    if from == repo.len() {
        assert(s.subrange(from, from + 1) =~= "@"@);
    } else {
        assert(s.subrange(from, from + 1) =~= repo.subrange(from, from + 1));
        lemma_revision_begins(repo, rev, from + 1);
    }
}

/// A repo id may be followed by any revision without backslashes, slashes included: the id
/// is what stands before the first `@`, and the revision all that stands behind it.
pub proof fn law_revisions_are_free(repo: Seq<char>, rev: Seq<char>)
    requires
        segments(repo) == 2,
        !crate::text::has(repo, "@"@),
        !crate::text::has(repo + "@"@ + rev, "\\"@),
        !is_at(repo + "@"@ + rev, 0, "."@),
        !is_at(repo + "@"@ + rev, 0, "hf:"@),
        !is_at(repo + "@"@ + rev, 0, "http://"@),
        !is_at(repo + "@"@ + rev, 0, "https://"@),
    ensures
        classified(repo + "@"@ + rev, false) == (SourceV::Hub { repo: strip_end(repo, Blank::Slash), rev }),
{
    let s = repo + "@"@ + rev;
    lemma_revision_begins(repo, rev, 0);
    reveal_strlit("@");
    assert(s.subrange(0, repo.len() as int) =~= repo);
    assert(s.subrange(repo.len() as int + 1, s.len() as int) =~= rev);
}

/// What exists on disk wins over every other reading of a spec.
pub proof fn law_disk_wins(spec: Seq<char>)
    ensures
        classified(spec, true) == SourceV::Local(spec),
{
}

} // verus!
