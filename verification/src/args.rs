//! The command line: options, numbers, and which command it asks for.

use vstd::prelude::*;
use vstd::hash_map::StringHashMap;
use vstd::string::*;
use crate::pack::{ends_in, ends_with};
use crate::text::{
    at, chars_of, find, first_at, is_at, join, last_part, last_part_of, lemma_first_at, parse_unsigned, same,
    split_once, split_once_of, strip_end, substring, trim, trimmed, unsigned_of, without_end, Blank,
};

verus! {

/// What was given on the command line: the command, what follows it, and the options.
pub struct Args {
    pub cmd: String,
    pub pos: Vec<String>,
    opt: StringHashMap<String>,
}

/// What [`Args`] hold.
#[verifier::ext_equal]
pub struct ArgsV {
    pub cmd: Seq<char>,
    pub pos: Seq<Seq<char>>,
    pub opt: Map<Seq<char>, Seq<char>>,
}

/// What some strings hold.
pub open spec fn texts(v: Seq<String>) -> Seq<Seq<char>> {
    Seq::new(v.len(), |i: int| v[i]@)
}

/// What a map of strings holds.
pub open spec fn map_texts(m: Map<Seq<char>, String>) -> Map<Seq<char>, Seq<char>> {
    m.map_values(|s: String| s@)
}

impl View for Args {
    type V = ArgsV;

    closed spec fn view(&self) -> ArgsV {
        ArgsV { cmd: self.cmd@, pos: texts(self.pos@), opt: map_texts(self.opt@) }
    }
}

/// The name of an option, where an argument is one: behind two dashes, or behind one and
/// not empty.
pub open spec fn option_of(a: Seq<char>) -> Option<Seq<char>> {
    if is_at(a, 0, "--"@) {
        Some(a.subrange(2, a.len() as int))
    } else if is_at(a, 0, "-"@) && a.len() > 1 {
        Some(a.subrange(1, a.len() as int))
    } else {
        None
    }
}

/// The long name of an option.
pub open spec fn long_name(k: Seq<char>) -> Seq<char> {
    if k == "p"@ {
        "prompt"@
    } else if k == "n"@ {
        "tokens"@
    } else if k == "o"@ {
        "out"@
    } else if k == "h"@ {
        "help"@
    } else if k == "V"@ {
        "version"@
    } else {
        k
    }
}

/// Whether an option stands alone, with no value behind it.
pub open spec fn is_flag(k: Seq<char>) -> bool {
    k == "help"@ || k == "no-stream"@ || k == "stats"@ || k == "version"@ || k == "offline"@ || k == "cors"@ || k
        == "no-prefix-cache"@ || k == "json"@
}

/// The arguments from `i` on: what stands alone, and the options. A value follows an
/// equals sign or is the next argument; the last value of an option counts.
pub open spec fn sorted_out(raw: Seq<Seq<char>>, i: int, pos: Seq<Seq<char>>, opt: Map<Seq<char>, Seq<char>>) -> (
    Seq<Seq<char>>,
    Map<Seq<char>, Seq<char>>,
)
    decreases raw.len() - i,
{
    if i < 0 || i >= raw.len() {
        (pos, opt)
    } else {
        match option_of(raw[i]) {
            None => sorted_out(raw, i + 1, pos.push(raw[i]), opt),
            Some(name) => match split_once_of(name, "="@) {
                Some((k, v)) => sorted_out(raw, i + 1, pos, opt.insert(long_name(k), v)),
                None => {
                    let key = long_name(name);
                    if is_flag(key) {
                        sorted_out(raw, i + 1, pos, opt.insert(key, "1"@))
                    } else if i + 1 < raw.len() {
                        sorted_out(raw, i + 2, pos, opt.insert(key, raw[i + 1]))
                    } else {
                        (pos, opt.insert(key, ""@))
                    }
                },
            },
        }
    }
}

/// What a command line says. The first argument that stands alone is the command.
pub open spec fn read_args(raw: Seq<Seq<char>>) -> ArgsV {
    let (pos, opt) = sorted_out(raw, 0, Seq::empty(), Map::empty());
    if pos.len() == 0 {
        ArgsV { cmd: ""@, pos, opt }
    } else {
        ArgsV { cmd: pos[0], pos: pos.drop_first(), opt }
    }
}

fn option_name(a: &str) -> (r: Option<String>)
    ensures
        match r {
            Some(s) => option_of(a@) == Some(s@),
            None => option_of(a@) is None,
        },
{
    let c = chars_of(a);
    proof {
        reveal_strlit("--");
        reveal_strlit("-");
    }
    if at(c.as_slice(), 0, "--") {
        Some(substring(c.as_slice(), 2, c.len()))
    } else if at(c.as_slice(), 0, "-") && c.len() > 1 {
        Some(substring(c.as_slice(), 1, c.len()))
    } else {
        None
    }
}

fn full_name(k: String) -> (r: String)
    ensures
        r@ == long_name(k@),
{
    let s: &str = k.as_str();
    if same(s, "p") {
        "prompt".to_owned()
    } else if same(s, "n") {
        "tokens".to_owned()
    } else if same(s, "o") {
        "out".to_owned()
    } else if same(s, "h") {
        "help".to_owned()
    } else if same(s, "V") {
        "version".to_owned()
    } else {
        k
    }
}

fn stands_alone(k: &str) -> (r: bool)
    ensures
        r == is_flag(k@),
{
    same(k, "help") || same(k, "no-stream") || same(k, "stats") || same(k, "version") || same(k, "offline") || same(
        k,
        "cors",
    ) || same(k, "no-prefix-cache") || same(k, "json")
}

fn set(opt: &mut StringHashMap<String>, k: String, v: String)
    ensures
        map_texts(final(opt)@) == map_texts(old(opt)@).insert(k@, v@),
{
    opt.insert(k, v);
    assert(map_texts(opt@) =~= map_texts(old(opt)@).insert(k@, v@));
}

/// Which command is asked for.
#[derive(Clone, Copy, PartialEq, Eq, Debug, Structural)]
pub enum Command {
    Version,
    Help,
    /// A command without a model.
    NoModel,
    Pull,
    /// Routing from traces that are on disk.
    RouteTraces,
    Run,
    Chat,
    Bench,
    Info,
    Pack,
    Tokenize,
    Serve,
    Route,
    Eval,
    Embed,
    Unknown,
}

impl ArgsV {
    /// Which command is asked for.
    pub open spec fn command(self) -> Command {
        if self.opt.dom().contains("version"@) {
            Command::Version
        } else if self.opt.dom().contains("help"@) || self.cmd.len() == 0 {
            Command::Help
        } else if self.pos.len() == 0 {
            Command::NoModel
        } else if self.cmd == "pull"@ {
            Command::Pull
        } else if self.cmd == "route"@ {
            if ends_in(self.pos[0], ".jsonl"@) {
                Command::RouteTraces
            } else {
                Command::Route
            }
        } else if self.cmd == "run"@ {
            Command::Run
        } else if self.cmd == "chat"@ {
            Command::Chat
        } else if self.cmd == "bench"@ {
            Command::Bench
        } else if self.cmd == "info"@ {
            Command::Info
        } else if self.cmd == "pack"@ {
            Command::Pack
        } else if self.cmd == "tokenize"@ {
            Command::Tokenize
        } else if self.cmd == "serve"@ {
            Command::Serve
        } else if self.cmd == "eval"@ {
            Command::Eval
        } else if self.cmd == "embed"@ {
            Command::Embed
        } else {
            Command::Unknown
        }
    }

    /// The value of an option.
    pub open spec fn value(self, k: Seq<char>) -> Option<Seq<char>> {
        if self.opt.dom().contains(k) {
            Some(self.opt[k])
        } else {
            None
        }
    }

    /// The number that an option gives, up to `max`, where it is one.
    pub open spec fn number(self, k: Seq<char>, max: nat) -> Option<nat> {
        match self.value(k) {
            Some(v) => unsigned_of(v, max),
            None => None,
        }
    }
}

impl Args {
    /// Sort out a command line.
    #[verifier::loop_isolation(false)]
    pub fn parse(raw: &Vec<String>) -> (r: Args)
        ensures
            r@ == read_args(texts(raw@)),
    {
        let ghost v = texts(raw@);
        let ghost want = sorted_out(v, 0, Seq::empty(), Map::empty());
        let mut pos: Vec<String> = Vec::new();
        let mut opt: StringHashMap<String> = StringHashMap::new();
        let mut i: usize = 0;
        assert(texts(pos@) =~= Seq::empty());
        assert(map_texts(opt@) =~= Map::empty());
        while i < raw.len()
            invariant
                i <= raw@.len(),
                v == texts(raw@),
                want == sorted_out(v, i as int, texts(pos@), map_texts(opt@)),
            decreases raw@.len() - i,
        {
            let a: &str = raw[i].as_str();
            assert(v[i as int] == a@);
            match option_name(a) {
                None => {
                    let ghost before = texts(pos@);
                    pos.push(a.to_owned());
                    assert(texts(pos@) =~= before.push(a@));
                    i += 1;
                },
                Some(name) => match split_once(name.as_str(), "=") {
                    Some((k, x)) => {
                        set(&mut opt, full_name(k), x);
                        i += 1;
                    },
                    None => {
                        let key = full_name(name);
                        if stands_alone(key.as_str()) {
                            set(&mut opt, key, "1".to_owned());
                            i += 1;
                        } else if i < raw.len() - 1 {
                            assert(v[i + 1] == raw@[i + 1]@);
                            set(&mut opt, key, raw[i + 1].clone());
                            i += 2;
                        } else {
                            set(&mut opt, key, "".to_owned());
                            i += 1;
                        }
                    },
                },
            }
        }
        let ghost p = texts(pos@);
        let ghost o = map_texts(opt@);
        assert(want == (p, o));
        if pos.len() == 0 {
            let r = Args { cmd: "".to_owned(), pos, opt };
            assert(r@ =~= read_args(v));
            r
        } else {
            let cmd = pos.remove(0);
            assert(cmd@ == p[0]);
            let r = Args { cmd, pos, opt };
            assert(texts(pos@) =~= p.drop_first());
            assert(r@ =~= read_args(v));
            r
        }
    }

    /// The value of an option.
    pub fn get(&self, k: &str) -> (r: Option<&str>)
        ensures
            match r {
                Some(v) => self@.value(k@) == Some(v@),
                None => self@.value(k@) is None,
            },
    {
        match self.opt.get(k) {
            Some(v) => Some(v.as_str()),
            None => None,
        }
    }

    /// Whether an option is given.
    pub fn on(&self, k: &str) -> (r: bool)
        ensures
            r == self@.opt.dom().contains(k@),
    {
        self.opt.contains_key(k)
    }

    /// The number that an option gives, where it is one that fits.
    pub fn given(&self, k: &str, max: u64) -> (r: Option<u64>)
        ensures
            match r {
                Some(n) => self@.number(k@, max as nat) == Some(n as nat) && n <= max,
                None => self@.number(k@, max as nat) is None,
            },
    {
        match self.get(k) {
            Some(v) => parse_unsigned(v, max),
            None => None,
        }
    }

    /// The number that an option gives, or a default.
    pub fn num(&self, k: &str, default: usize) -> (r: usize)
        ensures
            r == (match self@.number(k@, usize::MAX as nat) {
                Some(n) => n as int,
                None => default as int,
            }),
    {
        match self.given(k, usize::MAX as u64) {
            Some(n) => n as usize,
            None => default,
        }
    }

    /// Which command is asked for.
    pub fn command(&self) -> (r: Command)
        ensures
            r == self@.command(),
    {
        if self.on("version") {
            return Command::Version;
        }
        if self.on("help") || self.cmd.as_str().is_empty() {
            return Command::Help;
        }
        if self.pos.len() == 0 {
            return Command::NoModel;
        }
        let cmd: &str = self.cmd.as_str();
        assert(self@.pos[0] == self.pos@[0]@);
        if same(cmd, "pull") {
            Command::Pull
        } else if same(cmd, "route") {
            if ends_with(self.pos[0].as_str(), ".jsonl") {
                Command::RouteTraces
            } else {
                Command::Route
            }
        } else if same(cmd, "run") {
            Command::Run
        } else if same(cmd, "chat") {
            Command::Chat
        } else if same(cmd, "bench") {
            Command::Bench
        } else if same(cmd, "info") {
            Command::Info
        } else if same(cmd, "pack") {
            Command::Pack
        } else if same(cmd, "tokenize") {
            Command::Tokenize
        } else if same(cmd, "serve") {
            Command::Serve
        } else if same(cmd, "eval") {
            Command::Eval
        } else if same(cmd, "embed") {
            Command::Embed
        } else {
            Command::Unknown
        }
    }
}

/// The parts of a text between commas, from `i` on.
pub open spec fn list_of(s: Seq<char>, i: int) -> Seq<Seq<char>>
    decreases s.len() - i + 1,
{
    if i < 0 || i > s.len() {
        Seq::empty()
    } else {
        match first_at(s, i, ","@) {
            None => seq![s.subrange(i, s.len() as int)],
            Some(k) => {
                proof {
                    lemma_first_at(s, i, ","@);
                }
                seq![s.subrange(i, k)] + list_of(s, k + 1)
            },
        }
    }
}

/// The token ids among the first `n` parts.
pub open spec fn ids_among(v: Seq<Seq<char>>, n: nat) -> Seq<u32>
    decreases n,
{
    if n == 0 || n > v.len() {
        Seq::empty()
    } else {
        let rest = ids_among(v, (n - 1) as nat);
        match unsigned_of(trimmed(v[n - 1]), u32::MAX as nat) {
            Some(id) => rest.push(id as u32),
            None => rest,
        }
    }
}

fn list(s: &str) -> (r: Vec<String>)
    ensures
        texts(r@) == list_of(s@, 0),
{
    let c = chars_of(s);
    proof {
        reveal_strlit(",");
    }
    let ghost want = list_of(s@, 0);
    let mut out: Vec<String> = Vec::new();
    let mut i: usize = 0;
    assert(texts(out@) + list_of(s@, 0) =~= want);
    loop
        invariant
            c@ == s@,
            i <= c@.len(),
            ","@.len() == 1,
            texts(out@) + list_of(s@, i as int) == want,
            want == list_of(s@, 0),
        decreases c@.len() - i,
    {
        let ghost before = texts(out@);
        match find(c.as_slice(), i, ",") {
            None => {
                out.push(substring(c.as_slice(), i, c.len()));
                assert(texts(out@) =~= before + seq![s@.subrange(i as int, s@.len() as int)]);
                return out;
            },
            Some(k) => {
                out.push(substring(c.as_slice(), i, k));
                let ghost one = seq![s@.subrange(i as int, k as int)];
                assert(texts(out@) =~= before + one);
                assert(texts(out@) + list_of(s@, k + 1) =~= before + (one + list_of(s@, k + 1)));
                i = k + 1;
            },
        }
    }
}

/// Token ids from a list with commas; what is no id is passed over.
pub fn id_list(s: &str) -> (r: Vec<u32>)
    ensures
        r@ == ids_among(list_of(s@, 0), list_of(s@, 0).len()),
{
    let parts = list(s);
    let ghost v = list_of(s@, 0);
    let mut out: Vec<u32> = Vec::new();
    let mut i: usize = 0;
    while i < parts.len()
        invariant
            i <= parts@.len(),
            v == texts(parts@),
            out@ == ids_among(v, i as nat),
        decreases parts@.len() - i,
    {
        let t = trim(parts[i].as_str());
        assert(v[i as int] == parts@[i as int]@);
        match parse_unsigned(t.as_str(), u32::MAX as u64) {
            Some(n) => {
                out.push(n as u32);
            },
            None => {},
        }
        i += 1;
    }
    out
}

/// The pairs of a layer and an expert among the first `n` parts, written `layer:expert`.
pub open spec fn pairs_among(v: Seq<Seq<char>>, n: nat) -> Seq<(u32, u32)>
    decreases n,
{
    if n == 0 || n > v.len() {
        Seq::empty()
    } else {
        let rest = pairs_among(v, (n - 1) as nat);
        match split_once_of(trimmed(v[n - 1]), ":"@) {
            Some((a, b)) => match (unsigned_of(a, u32::MAX as nat), unsigned_of(b, u32::MAX as nat)) {
                (Some(x), Some(y)) => rest.push((x as u32, y as u32)),
                _ => rest,
            },
            None => rest,
        }
    }
}

/// Layers and experts from a list with commas; what is no such pair is passed over.
pub fn pair_list(s: &str) -> (r: Vec<(u32, u32)>)
    ensures
        r@ == pairs_among(list_of(s@, 0), list_of(s@, 0).len()),
{
    let parts = list(s);
    let ghost v = list_of(s@, 0);
    let mut out: Vec<(u32, u32)> = Vec::new();
    let mut i: usize = 0;
    while i < parts.len()
        invariant
            i <= parts@.len(),
            v == texts(parts@),
            out@ == pairs_among(v, i as nat),
        decreases parts@.len() - i,
    {
        let t = trim(parts[i].as_str());
        assert(v[i as int] == parts@[i as int]@);
        match split_once(t.as_str(), ":") {
            Some((a, b)) => {
                match (parse_unsigned(a.as_str(), u32::MAX as u64), parse_unsigned(b.as_str(), u32::MAX as u64)) {
                    (Some(x), Some(y)) => {
                        out.push((x as u32, y as u32));
                    },
                    _ => {},
                }
            },
            None => {},
        }
        i += 1;
    }
    out
}

/// The name of a model: the last part of what points to it.
pub open spec fn model_name_of(spec: Seq<char>) -> Seq<char> {
    last_part_of(strip_end(spec, Blank::Separator), Blank::Separator)
}

/// The name of a model.
pub fn model_name(spec: &str) -> (r: String)
    ensures
        r@ == model_name_of(spec@),
{
    let t = without_end(spec, Blank::Separator);
    last_part(t.as_str(), Blank::Separator)
}

/// A name without any `.moe` at its end.
pub open spec fn without_suffix(s: Seq<char>) -> Seq<char>
    decreases s.len(),
{
    if s.len() >= 4 && ends_in(s, ".moe"@) {
        without_suffix(s.take(s.len() - 4))
    } else {
        s
    }
}

/// The file that a model is packed into where none is named.
pub fn packed_name(spec: &str) -> (r: String)
    ensures
        r@ == without_suffix(model_name_of(spec@)) + ".moe"@,
{
    let mut name = model_name(spec);
    let ghost want = without_suffix(name@);
    loop
        invariant
            want == without_suffix(name@),
            want == without_suffix(model_name_of(spec@)),
        decreases name@.len(),
    {
        proof {
            reveal_strlit(".moe");
        }
        if !ends_with(name.as_str(), ".moe") {
            return join(name.as_str(), ".moe");
        }
        let c = chars_of(name.as_str());
        let ghost before = name@;
        name = substring(c.as_slice(), 0, c.len() - 4);
        assert(name@ =~= before.take(before.len() - 4));
    }
}

/// The context window of a run: what is asked for, or what the model has, up to 4096, but
/// never less than the prompt and what is to be generated take.
pub fn run_ctx(given: Option<usize>, max_ctx: usize, prompt: usize, tokens: usize) -> (r: usize)
    requires
        prompt + tokens <= usize::MAX,
    ensures
        ({
            let base = match given {
                Some(n) => n,
                None => if max_ctx < 4096 {
                    max_ctx
                } else {
                    4096
                },
            };
            r == (if base < prompt + tokens {
                prompt + tokens
            } else {
                base as int
            })
        }),
{
    let base: usize = match given {
        Some(n) => n,
        None => if max_ctx < 4096 {
            max_ctx
        } else {
            4096
        },
    };
    if base < prompt + tokens {
        prompt + tokens
    } else {
        base
    }
}

/// The window and the step of a scoring: what is asked for, or what the model has, up to
/// 2048, but at least two tokens; and half of that.
pub fn eval_window(given: Option<usize>, stride: Option<usize>, max_ctx: usize) -> (r: (usize, usize))
    ensures
        ({
            let base = match given {
                Some(n) => n,
                None => if max_ctx < 2048 {
                    max_ctx
                } else {
                    2048
                },
            };
            &&& r.0 == (if base < 2 {
                2
            } else {
                base
            })
            &&& r.1 == (match stride {
                Some(n) => n,
                None => r.0 / 2,
            })
        }),
{
    let base: usize = match given {
        Some(n) => n,
        None => if max_ctx < 2048 {
            max_ctx
        } else {
            2048
        },
    };
    let ctx: usize = if base < 2 {
        2
    } else {
        base
    };
    let step: usize = match stride {
        Some(n) => n,
        None => ctx / 2,
    };
    (ctx, step)
}

/// The tokens that throughput is measured on.
pub fn bench_ids(n: usize, vocab: usize) -> (r: Vec<u32>)
    requires
        vocab > 0,
        7 * n + 13 <= usize::MAX,
    ensures
        r@ == Seq::new(n as nat, |i: int| ((i * 7 + 13) % (vocab as int)) as u32),
{
    let ghost want = Seq::new(n as nat, |i: int| ((i * 7 + 13) % (vocab as int)) as u32);
    let mut out: Vec<u32> = Vec::new();
    let mut i: usize = 0;
    while i < n
        invariant
            i <= n,
            vocab > 0,
            7 * n + 13 <= usize::MAX,
            want == Seq::new(n as nat, |i: int| ((i * 7 + 13) % (vocab as int)) as u32),
            out@ == want.take(i as int),
        decreases n - i,
    {
        let t: usize = (i * 7 + 13) % vocab;
        out.push(
            #[verifier::truncate]
            (t as u32),
        );
        i += 1;
        assert(want.take(i as int) =~= want.take(i - 1).push(want[i - 1]));
    }
    assert(want.take(i as int) =~= want);
    out
}

} // verus!
