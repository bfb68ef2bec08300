//! What the outside asks for: what a command line says, what a model spec points to, and what is
//! downloaded of it.

use vstd::prelude::*;
use crate::args::{ids_among, list_of, long_name, is_flag, option_of, pairs_among, read_args, sorted_out, without_suffix, ArgsV, Command};
use crate::fetch::{
    cache_root, classified, file_in, flattened, fnv, is_taken, refusal_of, resolved, sanitized, segments, size_of_files,
    size_there, taken_of, Base, Platform, ResolveV, SourceV, Vars,
};
use crate::json::{JsonV, NumberV};
use crate::pack::ends_in;
use crate::text::{
    count_of, decimal_of, first_at, has, is_at, law_decimal_reads_back, strip_end, trimmed, unsigned_of, Blank,
};

verus! {

/// The options by their short names, and those that stand alone.
pub proof fn law_options_are_named(k: Seq<char>)
    ensures
        long_name("p"@) == "prompt"@,
        long_name("n"@) == "tokens"@,
        long_name("o"@) == "out"@,
        long_name("h"@) == "help"@,
        long_name("V"@) == "version"@,
        k.len() > 1 ==> long_name(k) == k,
        is_flag("help"@),
        is_flag("no-stream"@),
        is_flag("stats"@),
        is_flag("version"@),
        is_flag("offline"@),
        is_flag("cors"@),
        is_flag("no-prefix-cache"@),
        is_flag("json"@),
        is_flag(k) ==> k == "help"@ || k == "no-stream"@ || k == "stats"@ || k == "version"@ || k == "offline"@ || k == "cors"@ || k == "no-prefix-cache"@ || k == "json"@,
{
    reveal_strlit("p");
    reveal_strlit("n");
    reveal_strlit("o");
    reveal_strlit("h");
    reveal_strlit("V");
    reveal_strlit("help");
    reveal_strlit("no-stream");
    reveal_strlit("stats");
    reveal_strlit("version");
    reveal_strlit("offline");
    reveal_strlit("cors");
    reveal_strlit("no-prefix-cache");
    reveal_strlit("json");
    assert("p"@.len() == 1 && "p"@[0] == 'p');
    assert("n"@.len() == 1 && "n"@[0] == 'n');
    assert("o"@.len() == 1 && "o"@[0] == 'o');
    assert("h"@.len() == 1 && "h"@[0] == 'h');
    assert("V"@.len() == 1 && "V"@[0] == 'V');
    assert("help"@.len() == 4 && "help"@[0] == 'h');
    assert("no-stream"@.len() == 9);
    assert("stats"@.len() == 5);
    assert("version"@.len() == 7 && "version"@[0] == 'v');
    assert("offline"@.len() == 7 && "offline"@[0] == 'o');
    assert("cors"@.len() == 4 && "cors"@[0] == 'c');
    assert("no-prefix-cache"@.len() == 15);
    assert("json"@.len() == 4 && "json"@[0] == 'j');
}

/// An option is what stands behind two dashes, or behind one; a dash alone and all else are none.
pub proof fn law_dashes_make_options(k: Seq<char>)
    ensures
        option_of("--"@ + k) == Some(k),
        k.len() > 0 && k[0] != '-' ==> option_of("-"@ + k) == Some(k),
        k.len() > 0 && k[0] != '-' ==> option_of(k) is None,
        option_of("-"@) is None,
{
    reveal_strlit("--");
    reveal_strlit("-");
    let a = "--"@ + k;
    let b = "-"@ + k;
    assert(a.subrange(0, 2) =~= "--"@);
    assert(a.subrange(2, a.len() as int) =~= k);
    assert(b.subrange(0, 1) =~= "-"@);
    assert(b.subrange(1, b.len() as int) =~= k);
    if k.len() > 0 && k[0] != '-' {
        if is_at(b, 0, "--"@) {
            assert(b.subrange(0, 2)[1] == b[1]);
        }
        if is_at(k, 0, "--"@) {
            assert(k.subrange(0, 2)[0] == k[0]);
        }
        if is_at(k, 0, "-"@) {
            assert(k.subrange(0, 1)[0] == k[0]);
        }
    }
}

/// How a command line is sorted out, argument by argument: what is no option stands alone; a flag is
/// set; an option has the next argument for its value, or what stands behind its equals sign.
pub proof fn law_arguments_are_sorted_out(
    raw: Seq<Seq<char>>,
    i: int,
    pos: Seq<Seq<char>>,
    opt: Map<Seq<char>, Seq<char>>,
    k: Seq<char>,
    v: Seq<char>,
)
    requires
        0 <= i < raw.len(),
    ensures
        option_of(raw[i]) is None ==> sorted_out(raw, i, pos, opt) == sorted_out(raw, i + 1, pos.push(raw[i]), opt),
        option_of(raw[i]) == Some(k) && !crate::text::has(k, "="@) && is_flag(long_name(k)) ==> sorted_out(raw, i, pos, opt)
            == sorted_out(raw, i + 1, pos, opt.insert(long_name(k), "1"@)),
        option_of(raw[i]) == Some(k) && !crate::text::has(k, "="@) && !is_flag(long_name(k)) && i + 1 < raw.len()
            ==> sorted_out(raw, i, pos, opt) == sorted_out(raw, i + 2, pos, opt.insert(long_name(k), raw[i + 1])),
        option_of(raw[i]) == Some(k + "="@ + v) && !crate::text::has(k, "="@) ==> sorted_out(raw, i, pos, opt) == sorted_out(
            raw,
            i + 1,
            pos,
            opt.insert(long_name(k), v),
        ),
{
    if !crate::text::has(k, "="@) {
        lemma_split(k, v);
    }
}

/// A text without an equals sign, then one, is cut there.
proof fn lemma_split(k: Seq<char>, v: Seq<char>)
    requires
        first_at(k, 0, "="@) is None,
    ensures
        crate::text::split_once_of(k + "="@ + v, "="@) == Some((k, v)),
{
    reveal_strlit("=");
    let s = k + "="@ + v;
    lemma_sign(k, v, 0);
    assert(s.subrange(0, k.len() as int) =~= k);
    assert(s.subrange(k.len() as int + 1, s.len() as int) =~= v);
}

proof fn lemma_sign(k: Seq<char>, v: Seq<char>, from: int)
    requires
        0 <= from <= k.len(),
        first_at(k, from, "="@) is None,
    ensures
        first_at(k + "="@ + v, from, "="@) == Some(k.len() as int),
    decreases k.len() - from,
{
    reveal_strlit("=");
    let s = k + "="@ + v;
    if from == k.len() {
        assert(s.subrange(from, from + 1) =~= "="@);
    } else {
        assert(s.subrange(from, from + 1) =~= k.subrange(from, from + 1));
        lemma_sign(k, v, from + 1);
    }
}

/// The first argument that stands alone is the command, and those behind it are its own.
pub proof fn law_the_first_argument_is_the_command(raw: Seq<Seq<char>>, cmd: Seq<char>, rest: Seq<Seq<char>>, opt: Map<Seq<char>, Seq<char>>)
    requires
        sorted_out(raw, 0, Seq::empty(), Map::empty()) == (seq![cmd] + rest, opt),
    ensures
        read_args(raw).cmd == cmd,
        read_args(raw).pos == rest,
        read_args(raw).opt == opt,
{
    assert((seq![cmd] + rest).drop_first() =~= rest);
}

/// The commands by their names, once there is a model to apply them to.
pub proof fn law_commands_are_named(a: ArgsV)
    requires
        !a.opt.dom().contains("version"@),
        !a.opt.dom().contains("help"@),
        a.pos.len() > 0,
        a.cmd.len() > 0,
    ensures
        a.cmd == "pull"@ ==> a.command() == Command::Pull,
        a.cmd == "run"@ ==> a.command() == Command::Run,
        a.cmd == "chat"@ ==> a.command() == Command::Chat,
        a.cmd == "bench"@ ==> a.command() == Command::Bench,
        a.cmd == "info"@ ==> a.command() == Command::Info,
        a.cmd == "pack"@ ==> a.command() == Command::Pack,
        a.cmd == "tokenize"@ ==> a.command() == Command::Tokenize,
        a.cmd == "serve"@ ==> a.command() == Command::Serve,
        a.cmd == "eval"@ ==> a.command() == Command::Eval,
        a.cmd == "embed"@ ==> a.command() == Command::Embed,
        a.cmd == "route"@ && ends_in(a.pos[0], ".jsonl"@) ==> a.command() == Command::RouteTraces,
        a.cmd == "route"@ && !ends_in(a.pos[0], ".jsonl"@) ==> a.command() == Command::Route,
        a.cmd != "pull"@ && a.cmd != "run"@ && a.cmd != "chat"@ && a.cmd != "bench"@ && a.cmd != "info"@ && a.cmd != "pack"@ && a.cmd != "tokenize"@ && a.cmd != "serve"@ && a.cmd != "eval"@ && a.cmd != "embed"@ && a.cmd != "route"@ ==> a.command() == Command::Unknown,
{
    reveal_strlit("pull");
    reveal_strlit("run");
    reveal_strlit("chat");
    reveal_strlit("bench");
    reveal_strlit("info");
    reveal_strlit("pack");
    reveal_strlit("tokenize");
    reveal_strlit("serve");
    reveal_strlit("eval");
    reveal_strlit("embed");
    reveal_strlit("route");
    assert("pull"@.len() == 4 && "pull"@[0] == 'p' && "pull"@[1] == 'u');
    assert("run"@.len() == 3);
    assert("chat"@.len() == 4 && "chat"@[0] == 'c');
    assert("bench"@.len() == 5 && "bench"@[0] == 'b');
    assert("info"@.len() == 4 && "info"@[0] == 'i');
    assert("pack"@.len() == 4 && "pack"@[0] == 'p' && "pack"@[1] == 'a');
    assert("tokenize"@.len() == 8);
    assert("serve"@.len() == 5 && "serve"@[0] == 's');
    assert("eval"@.len() == 4 && "eval"@[0] == 'e');
    assert("embed"@.len() == 5 && "embed"@[0] == 'e');
    assert("route"@.len() == 5 && "route"@[0] == 'r');
}

/// Asking for the version or for help comes before everything else, and no command goes without a
/// model.
pub proof fn law_questions_come_first(a: ArgsV)
    ensures
        a.opt.dom().contains("version"@) ==> a.command() == Command::Version,
        !a.opt.dom().contains("version"@) && a.opt.dom().contains("help"@) ==> a.command() == Command::Help,
        !a.opt.dom().contains("version"@) && a.cmd.len() == 0 ==> a.command() == Command::Help,
        !a.opt.dom().contains("version"@) && !a.opt.dom().contains("help"@) && a.cmd.len() > 0 && a.pos.len() == 0
            ==> a.command() == Command::NoModel,
{
}

/// A list is cut at its commas, and at nothing else.
pub proof fn law_lists_are_cut_at_commas(a: Seq<char>, rest: Seq<char>)
    requires
        forall|k: int| 0 <= k < a.len() ==> #[trigger] a[k] != ',',
    ensures
        list_of(a, 0) == seq![a],
        list_of(a + seq![','] + rest, 0) == seq![a] + list_of(rest, 0),
{
    reveal_strlit(",");
    let s = a + seq![','] + rest;
    let n = a.len() as int;
    lemma_no_comma(a, 0);
    assert(a.subrange(0, n) =~= a);
    assert(s.subrange(n, n + 1) =~= ","@);
    assert forall|k: int| 0 <= k < n implies !is_at(s, k, ","@) by {
        if is_at(s, k, ","@) {
            assert(s.subrange(k, k + 1)[0] == a[k]);
        }
    }
    lemma_first(s, ","@, 0, n);
    assert(s.subrange(0, n) =~= a);
    lemma_list_shift(s, n + 1, n + 1);
    assert(s.subrange(n + 1, s.len() as int) =~= rest);
}

proof fn lemma_no_comma(s: Seq<char>, from: int)
    requires
        0 <= from,
        forall|k: int| 0 <= k < s.len() ==> #[trigger] s[k] != ',',
    ensures
        first_at(s, from, ","@) is None,
    decreases s.len() - from + 1,
{
    reveal_strlit(",");
    if from <= s.len() {
        if is_at(s, from, ","@) {
            assert(s.subrange(from, from + 1)[0] == s[from]);
        }
        lemma_no_comma(s, from + 1);
    }
}

proof fn lemma_first(s: Seq<char>, p: Seq<char>, from: int, at: int)
    requires
        0 <= from <= at,
        is_at(s, at, p),
        forall|k: int| from <= k < at ==> !is_at(s, k, p),
    ensures
        first_at(s, from, p) == Some(at),
    decreases at - from,
{
    if from < at {
        lemma_first(s, p, from + 1, at);
    }
}

proof fn lemma_first_shift(s: Seq<char>, cut: int, from: int, p: Seq<char>)
    requires
        0 <= cut <= s.len(),
        cut <= from <= s.len() + 1,
    ensures
        match first_at(s, from, p) {
            Some(k) => first_at(s.subrange(cut, s.len() as int), from - cut, p) == Some(k - cut),
            None => first_at(s.subrange(cut, s.len() as int), from - cut, p) is None,
        },
    decreases s.len() - from + 1,
{
    if cut <= s.len() && from <= s.len() {
        let t = s.subrange(cut, s.len() as int);
        if from + p.len() <= s.len() {
            assert(s.subrange(from, from + p.len()) =~= t.subrange(from - cut, from - cut + p.len()));
        }
        lemma_first_shift(s, cut, from + 1, p);
    }
}

proof fn lemma_list_shift(s: Seq<char>, cut: int, i: int)
    requires
        0 <= cut <= i <= s.len(),
    ensures
        list_of(s, i) == list_of(s.subrange(cut, s.len() as int), i - cut),
    decreases s.len() - i + 1,
{
    reveal_strlit(",");
    let t = s.subrange(cut, s.len() as int);
    lemma_first_shift(s, cut, i, ","@);
    crate::text::lemma_first_at(s, i, ","@);
    match first_at(s, i, ","@) {
        None => {
            assert(s.subrange(i, s.len() as int) =~= t.subrange(i - cut, t.len() as int));
        },
        Some(k) => {
            assert(s.subrange(i, k) =~= t.subrange(i - cut, k - cut));
            lemma_list_shift(s, cut, k + 1);
        },
    }
}

/// Of a list of numbers those that are numbers are taken, in order; of a list of pairs, layers before
/// experts.
pub proof fn law_numbers_of_lists_are_taken(v: Seq<Seq<char>>, part: Seq<char>, n: u32, a: u32, b: u32)
    ensures
        trimmed(part) == decimal_of(n as nat) ==> ids_among(v.push(part), v.len() + 1) == ids_among(v.push(part), v.len()).push(n),
        trimmed(part) == decimal_of(a as nat) + ":"@ + decimal_of(b as nat) ==> pairs_among(v.push(part), v.len() + 1)
            == pairs_among(v.push(part), v.len()).push((a, b)),
{
    lemma_decimal(n);
    lemma_decimal(a);
    lemma_decimal(b);
    reveal_strlit(":");
    let x = decimal_of(a as nat);
    let y = decimal_of(b as nat);
    let s = x + ":"@ + y;
    law_decimal_reads_back(a as nat);
    let k = x.len() as int;
    assert(s.subrange(k, k + 1) =~= ":"@);
    assert forall|j: int| 0 <= j < k implies !is_at(s, j, ":"@) by {
        if is_at(s, j, ":"@) {
            assert(s.subrange(j, j + 1)[0] == x[j]);
        }
    }
    lemma_first(s, ":"@, 0, k);
    assert(s.subrange(0, k) =~= x);
    assert(s.subrange(k + 1, s.len() as int) =~= y);
}

proof fn lemma_decimal(n: u32)
    ensures
        unsigned_of(decimal_of(n as nat), u32::MAX as nat) == Some(n as nat),
{
    law_decimal_reads_back(n as nat);
    assert(decimal_of(n as nat)[0] != '+');
}

/// A packed file's name ends in `.moe` once.
pub proof fn law_suffixes_are_taken_off(s: Seq<char>)
    ensures
        !ends_in(s, ".moe"@) ==> without_suffix(s) == s,
        without_suffix(s + ".moe"@) == without_suffix(s),
        !ends_in(without_suffix(s), ".moe"@),
    decreases s.len(),
{
    reveal_strlit(".moe");
    let t = s + ".moe"@;
    assert(t.subrange(t.len() - 4, t.len() as int) =~= ".moe"@);
    assert(t.take(t.len() - 4) =~= s);
    if s.len() >= 4 && ends_in(s, ".moe"@) {
        law_suffixes_are_taken_off(s.take(s.len() - 4));
    }
}

/// A spec that asks for the Hub is a repo there, at its revision or at `main`; an address is one to
/// download from; anything else is on disk.
pub proof fn law_specs_are_read(repo: Seq<char>, rev: Seq<char>, rest: Seq<char>)
    ensures
        first_at(repo, 0, "@"@) is None ==> classified("hf:"@ + repo, false) == (SourceV::Hub {
            repo: strip_end(repo, Blank::Slash),
            rev: "main"@,
        }),
        crate::fetch::page_of("https://"@ + rest) is None ==> classified("https://"@ + rest, false) == SourceV::Url(
            "https://"@ + rest,
        ),
        crate::fetch::page_of("http://"@ + rest) is None ==> classified("http://"@ + rest, false) == SourceV::Url(
            "http://"@ + rest,
        ),
        rest.len() > 0 && rest[0] == '/' ==> classified("."@ + rest, false) == SourceV::Local("."@ + rest),
{
    reveal_strlit("hf:");
    reveal_strlit("https://");
    reveal_strlit("http://");
    reveal_strlit(".");
    let a = "hf:"@ + repo;
    assert(a.subrange(0, 3) =~= "hf:"@);
    assert(a.subrange(3, a.len() as int) =~= repo);
    let b = "https://"@ + rest;
    assert(b.subrange(0, 8) =~= "https://"@);
    let c = "http://"@ + rest;
    assert(c.subrange(0, 7) =~= "http://"@);
    assert(b[1] == 't' && c[1] == 't');
    assert(!is_at(b, 0, "hf:"@)) by {
        if is_at(b, 0, "hf:"@) {
            assert(b.subrange(0, 3)[1] == b[1]);
        }
    }
    assert(!is_at(c, 0, "hf:"@)) by {
        if is_at(c, 0, "hf:"@) {
            assert(c.subrange(0, 3)[1] == c[1]);
        }
    }
    let d = "."@ + rest;
    assert(d[0] == '.');
    assert(d.subrange(0, 1) =~= "."@);
    if is_at(d, 0, "hf:"@) {
        assert(d.subrange(0, 3)[0] == d[0]);
    }
    if is_at(d, 0, "https://"@) {
        assert(d.subrange(0, 8)[0] == d[0]);
    }
    if is_at(d, 0, "http://"@) {
        assert(d.subrange(0, 7)[0] == d[0]);
    }
}

/// A text of two parts has one slash, and of one part none.
pub proof fn law_parts_are_counted(a: Seq<char>, b: Seq<char>)
    ensures
        segments(a + seq!['/'] + b) == segments(a) + segments(b),
        (forall|k: int| 0 <= k < a.len() ==> #[trigger] a[k] != '/') ==> segments(a) == 1,
{
    let s = a + seq!['/'] + b;
    lemma_count(a, s, 0, a.len());
    lemma_count_on(a, b, b.len());
    if forall|k: int| 0 <= k < a.len() ==> #[trigger] a[k] != '/' {
        lemma_no_slash(a, a.len());
    }
}

proof fn lemma_count(a: Seq<char>, s: Seq<char>, from: int, n: nat)
    requires
        n <= a.len() <= s.len(),
        forall|k: int| 0 <= k < a.len() ==> #[trigger] s[k] == a[k],
    ensures
        count_of(a, '/', n) == count_of(s, '/', n),
    decreases n,
{
    if n > 0 {
        lemma_count(a, s, from, (n - 1) as nat);
        assert(s[n - 1] == a[n - 1]);
    }
}

proof fn lemma_count_on(a: Seq<char>, b: Seq<char>, n: nat)
    requires
        n <= b.len(),
    ensures
        count_of(a + seq!['/'] + b, '/', a.len() + 1 + n) == count_of(a, '/', a.len()) + 1 + count_of(b, '/', n),
    decreases n,
{
    let s = a + seq!['/'] + b;
    if n > 0 {
        lemma_count_on(a, b, (n - 1) as nat);
        assert(s[a.len() as int + n] == b[n - 1]);
    } else {
        lemma_count(a, s, 0, a.len());
        assert(s[a.len() as int] == '/');
    }
}

proof fn lemma_no_slash(a: Seq<char>, n: nat)
    requires
        n <= a.len(),
        forall|k: int| 0 <= k < a.len() ==> #[trigger] a[k] != '/',
    ensures
        count_of(a, '/', n) == 0,
    decreases n,
{
    if n > 0 {
        assert(a[n - 1] != '/');
        lemma_no_slash(a, (n - 1) as nat);
    }
}

/// Where downloads are kept: where the user says, and else where the platform keeps caches.
pub proof fn law_caches_are_placed(p: Platform, v: Vars)
    ensures
        v.moe_cache ==> cache_root(p, v).0 == Base::Override,
        !v.moe_cache && v.local_app_data ==> cache_root(Platform::Windows, v) == (Base::LocalAppData, "moe"@),
        !v.moe_cache && v.home ==> cache_root(Platform::Mac, v) == (Base::Home, "Library/Caches/moe"@),
        !v.moe_cache && v.xdg ==> cache_root(Platform::Other, v) == (Base::Xdg, "moe"@),
        !v.moe_cache && !v.xdg && v.home ==> cache_root(Platform::Other, v) == (Base::Home, ".cache/moe"@),
        !v.moe_cache && !v.local_app_data && v.home ==> cache_root(Platform::Windows, v) == (Base::Home, ".cache/moe"@),
        !v.moe_cache && !v.xdg && !v.home && !v.local_app_data ==> cache_root(p, v) == (Base::Here, ".cache/moe"@),
{
}

/// What is done about a source: what is on disk is used or missing, a file that was downloaded is used
/// again, and a repo is looked at anew unless the network is refused.
pub proof fn law_sources_are_resolved(path: Seq<char>, rev: Seq<char>, place: Seq<char>, there: bool, offline: bool)
    ensures
        resolved(SourceV::Local(path), true, offline, place) == ResolveV::Use,
        resolved(SourceV::Local(path), false, offline, place) is Refuse,
        resolved(SourceV::Url(path), true, offline, place) == ResolveV::Use,
        resolved(SourceV::Url(path), false, false, place) == ResolveV::Fetch,
        resolved(SourceV::Url(path), false, true, place) is Refuse,
        resolved(SourceV::Hub { repo: path, rev }, there, false, place) == ResolveV::Fetch,
        resolved(SourceV::Hub { repo: path, rev }, true, true, place) == ResolveV::Use,
        resolved(SourceV::Hub { repo: path, rev }, false, true, place) is Refuse,
        refusal_of(path, 401) is Some && refusal_of(path, 403) is Some && refusal_of(path, 404) is Some,
        refusal_of(path, 200) is None && refusal_of(path, 500) is None,
{
}

/// A file name keeps letters, digits, dashes, points and underscores, and has a dash for all else, so it
/// never leaves its directory.
pub proof fn law_names_are_sanitized(s: Seq<char>, i: int)
    requires
        0 <= i < s.len(),
    ensures
        sanitized(s).len() == s.len(),
        sanitized(s)[i] != '/' && sanitized(s)[i] != '\\' && sanitized(s)[i] != ':',
        'a' <= s[i] <= 'z' || 'A' <= s[i] <= 'Z' || '0' <= s[i] <= '9' || s[i] == '-' || s[i] == '.' || s[i] == '_'
            ==> sanitized(s)[i] == s[i],
        s[i] == '/' || s[i] == '\\' || s[i] == ':' || s[i] == ' ' || s[i] > '\u{7f}' ==> sanitized(s)[i] == '-',
{
}

/// A repo's directory has two dashes for each slash, and all else as it is.
pub proof fn law_repos_are_flattened(repo: Seq<char>, c: char)
    ensures
        flattened(Seq::empty(), 0) == Seq::<char>::empty(),
        c != '/' ==> flattened(repo.push(c), repo.len() + 1) == flattened(repo, repo.len()).push(c),
        flattened(repo.push('/'), repo.len() + 1) == flattened(repo, repo.len()) + seq!['-', '-'],
{
    lemma_flattened(repo, repo.push(c), repo.len());
    lemma_flattened(repo, repo.push('/'), repo.len());
}

proof fn lemma_flattened(a: Seq<char>, s: Seq<char>, n: nat)
    requires
        n <= a.len() <= s.len(),
        forall|k: int| 0 <= k < a.len() ==> #[trigger] s[k] == a[k],
    ensures
        flattened(a, n) == flattened(s, n),
    decreases n,
{
    if n > 0 {
        lemma_flattened(a, s, (n - 1) as nat);
        assert(s[n - 1] == a[n - 1]);
    }
}

/// A listing's entry is a file where it says so and stands at the top.
pub proof fn law_listings_name_files(e: JsonV, path: Seq<char>, size: u64)
    ensures
        e.get("path"@) == Some(JsonV::Str(path)) && e.get("type"@) == Some(JsonV::Str("file"@)) && e.get("size"@) == Some(
            JsonV::Num(NumberV::Pos(size)),
        ) && !crate::text::has(path, "/"@) ==> file_in(e) == Some((path, size)),
        e.get("path"@) == Some(JsonV::Str(path)) && has(path, "/"@) ==> file_in(e) is None,
        e.get("type"@) == Some(JsonV::Str("directory"@)) ==> file_in(e) is None,
        e.get("path"@) is None ==> file_in(e) is None,
{
    reveal_strlit("file");
    reveal_strlit("directory");
    assert("file"@.len() == 4);
    assert("directory"@.len() == 9);
}

/// Of a listing everything is taken that the engine reads: where there is a packed model, that and
/// nothing else; where there is none, all weights and the four files beside them.
pub proof fn law_what_is_read_is_taken(name: Seq<char>)
    ensures
        is_taken(name, true) <==> ends_in(name, ".moe"@),
        ends_in(name, ".safetensors"@) ==> is_taken(name, false),
        is_taken("config.json"@, false),
        is_taken("tokenizer.json"@, false),
        is_taken("tokenizer_config.json"@, false),
        is_taken("chat_template.jinja"@, false),
        !ends_in(name, ".safetensors"@) && name != "config.json"@ && name != "tokenizer.json"@ && name
            != "tokenizer_config.json"@ && name != "chat_template.jinja"@ ==> !is_taken(name, false),
{
}

/// Nothing that is to be taken is left behind.
pub proof fn law_nothing_is_left_behind(v: Seq<(Seq<char>, u64)>, packed: bool, i: int)
    requires
        0 <= i < v.len(),
        is_taken(v[i].0, packed),
    ensures
        taken_of(v, packed, v.len()).contains(v[i]),
{
    lemma_taken(v, packed, v.len(), i);
}

proof fn lemma_taken(v: Seq<(Seq<char>, u64)>, packed: bool, n: nat, i: int)
    requires
        0 <= i < n <= v.len(),
        is_taken(v[i].0, packed),
    ensures
        taken_of(v, packed, n).contains(v[i]),
    decreases n,
{
    let rest = taken_of(v, packed, (n - 1) as nat);
    let all = taken_of(v, packed, n);
    if i < n - 1 {
        lemma_taken(v, packed, (n - 1) as nat, i);
        let k = choose|k: int| 0 <= k < rest.len() && rest[k] == v[i];
        assert(all[k] == v[i]);
    } else {
        assert(all[rest.len() as int] == v[i]);
    }
}

/// The hash of a file's address goes byte by byte: each is mixed in and multiplied through, so that
/// addresses that end alike after different beginnings differ by more than their ends.
pub proof fn law_hashes_go_byte_by_byte(b: Seq<u8>, x: u8)
    ensures
        fnv(Seq::empty(), 0) == 0xcbf2_9ce4_8422_2325,
        fnv(b.push(x), b.len() + 1) as int == ((fnv(b, b.len()) ^ (x as u64)) * 0x100_0000_01b3) % 0x1_0000_0000_0000_0000,
{
    lemma_fnv(b, b.push(x), b.len());
}

proof fn lemma_fnv(a: Seq<u8>, s: Seq<u8>, n: nat)
    requires
        n <= a.len() <= s.len(),
        forall|k: int| 0 <= k < a.len() ==> #[trigger] s[k] == a[k],
    ensures
        fnv(a, n) == fnv(s, n),
    decreases n,
{
    if n > 0 {
        lemma_fnv(a, s, (n - 1) as nat);
        assert(s[n - 1] == a[n - 1]);
    }
}

/// What there is to download, and what of it is there: a file counts where it has its full size.
pub proof fn law_downloads_are_weighed(v: Seq<(Seq<char>, u64)>, there: Seq<Option<u64>>, n: nat)
    requires
        0 < n <= v.len() == there.len(),
    ensures
        size_of_files(v, n) == size_of_files(v, (n - 1) as nat) + v[n - 1].1,
        there[n - 1] == Some(v[n - 1].1) ==> size_there(v, there, n) == size_there(v, there, (n - 1) as nat) + v[n - 1].1,
        there[n - 1] != Some(v[n - 1].1) ==> size_there(v, there, n) == size_there(v, there, (n - 1) as nat),
        size_there(v, there, n) <= size_of_files(v, n),
{
    lemma_there(v, there, n);
}

proof fn lemma_there(v: Seq<(Seq<char>, u64)>, there: Seq<Option<u64>>, n: nat)
    requires
        n <= v.len() == there.len(),
    ensures
        size_there(v, there, n) <= size_of_files(v, n),
    decreases n,
{
    if n > 0 {
        lemma_there(v, there, (n - 1) as nat);
    }
}

} // verus!
