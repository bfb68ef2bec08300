//! Rendering a checkpoint's own chat template.
//!
//! Guessing a prompt format from the control tokens in a vocabulary quietly
//! mis-prompts every family it does not know. But instruct checkpoints ship the
//! format, as a Jinja template in `tokenizer_config.json`. So the engine reads it.
//!
//! This is a subset of Jinja: `{{ }}`, `{% if %}`, `{% for %}`, `{% set %}`,
//! whitespace control, the operators and filters chat templates actually use.
//! Anything outside it is an error rather than a silent misrendering, and the
//! caller falls back to detecting a format from the vocabulary.

use vstd::prelude::*;
use vstd::hash_map::StringHashMap;
use vstd::string::*;
use crate::chat_block::{Until, block, parse_block};
use crate::chat_eval::{AskV, Bound, Fact, Halt, HaltV, bound_view, eval, facts_view, is_true, jsons, shown, stringify, truthy, value};
use crate::chat_lex::{lex, lexed};
use crate::chat_tree::{ExprV, Node, NodeV, nodes_view};
use crate::json::{Json, JsonV, Number, NumberV, text_of, value_view};
use crate::text::{chars_of, join, substring};

verus! {

/// How deep blocks may nest when they are rendered.
pub const MAX_BLOCK_DEPTH: usize = 32;

/// A parsed chat template.
#[derive(Debug)]
pub struct Template {
    nodes: Vec<Node>,
    source: String,
}

/// The bindings and the text so far.
pub type State = (Bound, Seq<char>);

/// What a loop runs over.
pub open spec fn items_of(v: JsonV) -> Result<Seq<JsonV>, HaltV> {
    match v {
        JsonV::Arr(a) => Ok(a),
        JsonV::Obj(m) => Ok(Seq::new(m.len(), |i: int| JsonV::Arr(seq![JsonV::Str(m[i].0), m[i].1]))),
        JsonV::Str(s) => Ok(Seq::new(s.len(), |i: int| JsonV::Str(seq![s[i]]))),
        JsonV::Null => Ok(Seq::empty()),
        _ => Err(HaltV::Error("cannot iterate "@ + text_of(v))),
    }
}

pub open spec fn count(n: int) -> JsonV {
    JsonV::Num(NumberV::Pos(n as u64))
}

/// What `loop` holds in round `i` of `n`.
pub open spec fn position_info(i: int, n: int) -> JsonV {
    JsonV::Obj(
        seq![
            ("first"@, JsonV::Bool(i == 0)),
            ("index"@, count(i + 1)),
            ("index0"@, count(i)),
            ("last"@, JsonV::Bool(i + 1 == n)),
            ("length"@, count(n)),
            ("revindex"@, count(n - i)),
            ("revindex0"@, count(n - 1 - i)),
        ],
    )
}

/// The bindings with `name` as it was in `before`.
pub open spec fn restored(now: Bound, before: Bound, name: Seq<char>) -> Bound {
    if before.dom().contains(name) {
        now.insert(name, before[name])
    } else {
        now.remove(name)
    }
}

/// The state after node `k` and those after it.
pub open spec fn run(
    nodes: Seq<NodeV>,
    k: nat,
    s: State,
    facts: Seq<(AskV, JsonV)>,
    depth: nat,
) -> Result<State, HaltV>
    decreases nodes, 0nat, nodes.len() - k,
{
    if depth > MAX_BLOCK_DEPTH {
        Err(HaltV::Error("template nests too deeply"@))
    } else if k >= nodes.len() {
        Ok(s)
    } else {
        match step(nodes[k as int], s, facts, depth) {
            Err(h) => Err(h),
            Ok(t) => run(nodes, k + 1, t, facts, depth),
        }
    }
}

/// The state after one node.
pub open spec fn step(n: NodeV, s: State, facts: Seq<(AskV, JsonV)>, depth: nat) -> Result<State, HaltV>
    decreases n, 0nat, 0nat,
{
    match n {
        NodeV::Text(t) => Ok((s.0, s.1 + t)),
        NodeV::Out(e) => match value(e, s.0, facts) {
            Err(h) => Err(h),
            Ok(v) => Ok((s.0, s.1 + shown(v))),
        },
        NodeV::If(branches, otherwise) => match taken(branches, 0, s.0, facts) {
            Err(h) => Err(h),
            Ok(i) => if i < branches.len() {
                run(branches[i as int].1, 0, s, facts, depth + 1)
            } else {
                run(otherwise, 0, s, facts, depth + 1)
            },
        },
        NodeV::For { var, iter, body } => match value(iter, s.0, facts) {
            Err(h) => Err(h),
            Ok(v) => match items_of(v) {
                Err(h) => Err(h),
                Ok(items) => match rounds(body, var, items, 0, s, facts, depth + 1) {
                    Err(h) => Err(h),
                    // Shadow rather than clobber: the loop variable is scoped.
                    Ok(t) => Ok((restored(restored(t.0, s.0, var), s.0, "loop"@), t.1)),
                },
            },
        },
        NodeV::Bind(name, e) => match value(e, s.0, facts) {
            Err(h) => Err(h),
            Ok(v) => Ok((s.0.insert(name, v), s.1)),
        },
    }
}

/// The first branch from `i` on whose condition holds, or the number of
/// branches.
pub open spec fn taken(
    branches: Seq<(ExprV, Seq<NodeV>)>,
    i: nat,
    scope: Bound,
    facts: Seq<(AskV, JsonV)>,
) -> Result<nat, HaltV>
    decreases branches.len() - i,
{
    if i >= branches.len() {
        Ok(branches.len())
    } else {
        match value(branches[i as int].0, scope, facts) {
            Err(h) => Err(h),
            Ok(v) => if is_true(v) {
                Ok(i)
            } else {
                taken(branches, i + 1, scope, facts)
            },
        }
    }
}

/// The state after round `i` of a loop and those after it.
pub open spec fn rounds(
    body: Seq<NodeV>,
    var: Seq<char>,
    items: Seq<JsonV>,
    i: nat,
    s: State,
    facts: Seq<(AskV, JsonV)>,
    depth: nat,
) -> Result<State, HaltV>
    decreases body, 1nat, items.len() - i,
{
    if i >= items.len() {
        Ok(s)
    } else {
        let scope = s.0.insert(var, items[i as int]).insert("loop"@, position_info(i as int, items.len() as int));
        match run(body, 0, (scope, s.1), facts, depth) {
            Err(h) => Err(h),
            Ok(t) => rounds(body, var, items, i + 1, t, facts, depth),
        }
    }
}

/// The names that a template finds bound.
pub open spec fn initial_scope(messages: Seq<JsonV>, generate: bool, bos: Seq<char>, eos: Seq<char>) -> Bound {
    Map::empty().insert("messages"@, JsonV::Arr(messages)).insert(
        "add_generation_prompt"@,
        JsonV::Bool(generate),
    ).insert("bos_token"@, JsonV::Str(bos)).insert("eos_token"@, JsonV::Str(eos)).insert(
        "tools"@,
        JsonV::Null,
    ).insert("tools_in_user_message"@, JsonV::Bool(false))
}

/// The tree of a template, or why it has none.
pub open spec fn parsed(src: Seq<char>) -> Result<Seq<NodeV>, Seq<char>> {
    match lexed(src) {
        Err(e) => Err(e),
        Ok(p) => match block(p, Seq::empty(), 0, Until::End) {
            Err(e) => Err(e),
            Ok((nodes, _)) => Ok(nodes),
        },
    }
}

/// Whether a result is the state wanted.
pub open spec fn reaches(
    r: Result<(), Halt>,
    scope: Map<Seq<char>, Json>,
    out: Seq<char>,
    want: Result<State, HaltV>,
) -> bool {
    match r {
        Ok(_) => want == Ok::<State, HaltV>((bound_view(scope), out)),
        Err(h) => want == Err::<State, HaltV>(h@),
    }
}

fn bind(scope: &mut StringHashMap<Json>, name: &str, v: Json)
    ensures
        bound_view(final(scope)@) == bound_view(old(scope)@).insert(name@, v@),
{
    let ghost before = bound_view(scope@);
    scope.insert(name.to_owned(), v);
    assert(bound_view(scope@) =~= before.insert(name@, v@));
}

fn unbind(scope: &mut StringHashMap<Json>, name: &str)
    ensures
        bound_view(final(scope)@) == bound_view(old(scope)@).remove(name@),
{
    let ghost before = bound_view(scope@);
    scope.remove(name);
    assert(bound_view(scope@) =~= before.remove(name@));
}

/// The value bound to `name`, to be put back later.
fn saved(scope: &StringHashMap<Json>, name: &str) -> (r: Option<Json>)
    ensures
        match r {
            Some(v) => bound_view(scope@).dom().contains(name@) && v@ == bound_view(scope@)[name@],
            None => !bound_view(scope@).dom().contains(name@),
        },
{
    match scope.get(name) {
        Some(v) => Some(v.copy()),
        None => None,
    }
}

fn restore(scope: &mut StringHashMap<Json>, name: &str, v: Option<Json>)
    ensures
        bound_view(final(scope)@) == (match v {
            Some(x) => bound_view(old(scope)@).insert(name@, x@),
            None => bound_view(old(scope)@).remove(name@),
        }),
{
    match v {
        Some(x) => bind(scope, name, x),
        None => unbind(scope, name),
    }
}

fn number(n: usize) -> (r: Json)
    ensures
        r@ == count(n as int),
{
    Json::Num(Number::Pos(n as u64))
}

/// What `loop` holds in round `i` of `n`.
fn loop_info(i: usize, n: usize) -> (r: Json)
    requires
        i < n,
    ensures
        r@ == position_info(i as int, n as int),
{
    let mut m: Vec<(String, Json)> = Vec::new();
    m.push(("first".to_owned(), Json::Bool(i == 0)));
    m.push(("index".to_owned(), number(i + 1)));
    m.push(("index0".to_owned(), number(i)));
    m.push(("last".to_owned(), Json::Bool(i + 1 == n)));
    m.push(("length".to_owned(), number(n)));
    m.push(("revindex".to_owned(), number(n - i)));
    m.push(("revindex0".to_owned(), number(n - 1 - i)));
    let r = Json::Obj(m);
    proof {
        reveal_with_fuel(value_view, 2);
    }
    assert(r@->Obj_0 =~= position_info(i as int, n as int)->Obj_0);
    r
}

/// What a loop runs over.
fn loop_items(v: &Json) -> (r: Result<Vec<Json>, Halt>)
    ensures
        match r {
            Ok(items) => items_of(v@) == Ok::<Seq<JsonV>, HaltV>(jsons(items@)),
            Err(h) => items_of(v@) == Err::<Seq<JsonV>, HaltV>(h@),
        },
{
    let mut out: Vec<Json> = Vec::new();
    let mut i: usize = 0;
    match v {
        Json::Arr(_) => {
            let ghost want = v@->Arr_0;
            let n: usize = v.count();
            while i < n
                invariant
                    i <= n == want.len(),
                    v@ == JsonV::Arr(want),
                    out@.len() == i,
                    forall|k: int| 0 <= k < i ==> (#[trigger] out@[k])@ == want[k],
                decreases n - i,
            {
                out.push(v.item(i).copy());
                i += 1;
            }
            assert(jsons(out@) =~= want);
            Ok(out)
        },
        Json::Obj(_) => {
            let ghost m = v@->Obj_0;
            let n: usize = v.size();
            while i < n
                invariant
                    i <= n == m.len(),
                    v@ == JsonV::Obj(m),
                    out@.len() == i,
                    forall|k: int|
                        0 <= k < i ==> (#[trigger] out@[k])@ == JsonV::Arr(seq![JsonV::Str(m[k].0), m[k].1]),
                decreases n - i,
            {
                let pair: Vec<Json> = vec![Json::Str(v.key(i).to_owned()), v.value(i).copy()];
                let item = Json::Arr(pair);
                proof {
                    reveal_with_fuel(value_view, 2);
                }
                assert(item@->Arr_0 =~= seq![JsonV::Str(m[i as int].0), m[i as int].1]);
                out.push(item);
                i += 1;
            }
            assert(jsons(out@) =~= items_of(v@)->Ok_0);
            Ok(out)
        },
        Json::Str(s) => {
            let c = chars_of(s.as_str());
            while i < c.len()
                invariant
                    i <= c@.len(),
                    out@.len() == i,
                    forall|k: int| 0 <= k < i ==> (#[trigger] out@[k])@ == JsonV::Str(seq![c@[k]]),
                decreases c.len() - i,
            {
                let one = substring(c.as_slice(), i, i + 1);
                assert(one@ =~= seq![c@[i as int]]);
                out.push(Json::Str(one));
                i += 1;
            }
            assert(jsons(out@) =~= items_of(v@)->Ok_0);
            Ok(out)
        },
        Json::Null => {
            assert(jsons(out@) =~= Seq::<JsonV>::empty());
            Ok(out)
        },
        _ => Err(Halt::Error(join("cannot iterate ", v.text().as_str()))),
    }
}

/// Render some nodes.
fn exec(
    nodes: &Vec<Node>,
    scope: &mut StringHashMap<Json>,
    out: &mut String,
    facts: &Vec<Fact>,
    depth: usize,
) -> (r: Result<(), Halt>)
    requires
        depth <= MAX_BLOCK_DEPTH + 1,
    ensures
        reaches(
            r,
            final(scope)@,
            final(out)@,
            run(nodes_view(nodes@), 0, (bound_view(old(scope)@), old(out)@), facts_view(facts@), depth as nat),
        ),
    decreases nodes, 0int,
{
    if depth > MAX_BLOCK_DEPTH {
        return Err(Halt::Error("template nests too deeply".to_owned()));
    }
    let ghost nv = nodes_view(nodes@);
    let ghost fv = facts_view(facts@);
    let ghost want = run(nv, 0, (bound_view(scope@), out@), fv, depth as nat);
    let mut k: usize = 0;
    while k < nodes.len()
        invariant
            k <= nodes@.len(),
            nv == nodes_view(nodes@),
            fv == facts_view(facts@),
            depth <= MAX_BLOCK_DEPTH,
            want == run(
                nodes_view(nodes@),
                0,
                (bound_view(old(scope)@), old(out)@),
                facts_view(facts@),
                depth as nat,
            ),
            want == run(nv, k as nat, (bound_view(scope@), out@), fv, depth as nat),
        decreases nodes.len() - k,
    {
        assert(nv[k as int] == nodes@[k as int]@);
        assert(decreases_to!(nodes => nodes@));
        assert(decreases_to!(nodes@ => nodes@[k as int]));
        match exec_one(&nodes[k], scope, out, facts, depth) {
            Ok(_) => {},
            Err(h) => {
                return Err(h);
            },
        }
        k += 1;
    }
    Ok(())
}

/// Render one node.
#[verifier::spinoff_prover]
#[verifier::rlimit(40)]
fn exec_one(n: &Node, scope: &mut StringHashMap<Json>, out: &mut String, facts: &Vec<Fact>, depth: usize) -> (r: Result<
    (),
    Halt,
>)
    requires
        depth <= MAX_BLOCK_DEPTH,
    ensures
        reaches(
            r,
            final(scope)@,
            final(out)@,
            step(n@, (bound_view(old(scope)@), old(out)@), facts_view(facts@), depth as nat),
        ),
    decreases n, 0int,
{
    match n {
        Node::Text(t) => {
            out.append(t.as_str());
            Ok(())
        },
        Node::Out(e) => match eval(e, scope, facts) {
            Ok(v) => {
                out.append(stringify(&v).as_str());
                Ok(())
            },
            Err(h) => Err(h),
        },
        Node::If(branches, otherwise) => {
            let ghost bv = n@->If_0;
            let ghost sv = bound_view(scope@);
            let ghost fv = facts_view(facts@);
            let mut i: usize = 0;
            let mut found = false;
            while i < branches.len() && !found
                invariant
                    i <= branches@.len(),
                    *n == Node::If(*branches, *otherwise),
                    n@ == NodeV::If(bv, nodes_view(otherwise@)),
                    sv == bound_view(scope@),
                    fv == facts_view(facts@),
                    *scope == *old(scope),
                    *out == *old(out),
                    found ==> i < branches@.len() && taken(bv, 0, sv, fv) == Ok::<nat, HaltV>(i as nat),
                    !found ==> taken(bv, 0, sv, fv) == taken(bv, i as nat, sv, fv),
                decreases branches.len() - i, (if found { 0int } else { 1int }),
            {
                assert(bv[i as int] == (branches@[i as int].0@, nodes_view(branches@[i as int].1@)));
                match eval(&branches[i].0, scope, facts) {
                    Ok(v) => {
                        if truthy(&v) {
                            found = true;
                        } else {
                            i += 1;
                        }
                    },
                    Err(h) => {
                        return Err(h);
                    },
                }
            }
            if found {
                assert(bv[i as int] == (branches@[i as int].0@, nodes_view(branches@[i as int].1@)));
                assert(decreases_to!(*n => n->If_0));
                assert(decreases_to!(branches => branches@));
                assert(decreases_to!(branches@ => branches@[i as int]));
                assert(decreases_to!(branches@[i as int] => branches@[i as int].1));
                exec(&branches[i].1, scope, out, facts, depth + 1)
            } else {
                exec(otherwise, scope, out, facts, depth + 1)
            }
        },
        Node::For { var, iter, body } => {
            let seq = match eval(iter, scope, facts) {
                Ok(v) => v,
                Err(h) => {
                    return Err(h);
                },
            };
            let items = match loop_items(&seq) {
                Ok(v) => v,
                Err(h) => {
                    return Err(h);
                },
            };
            // Shadow rather than clobber: the loop variable is scoped.
            let outer = saved(scope, var.as_str());
            let outer_loop = saved(scope, "loop");
            match exec_rounds(body, var.as_str(), &items, scope, out, facts, depth + 1) {
                Ok(_) => {},
                Err(h) => {
                    return Err(h);
                },
            }
            restore(scope, var.as_str(), outer);
            restore(scope, "loop", outer_loop);
            Ok(())
        },
        Node::Bind(name, e) => match eval(e, scope, facts) {
            Ok(v) => {
                bind(scope, name.as_str(), v);
                Ok(())
            },
            Err(h) => Err(h),
        },
    }
}

/// Render the body of a loop once for each item.
fn exec_rounds(
    body: &Vec<Node>,
    var: &str,
    items: &Vec<Json>,
    scope: &mut StringHashMap<Json>,
    out: &mut String,
    facts: &Vec<Fact>,
    depth: usize,
) -> (r: Result<(), Halt>)
    requires
        depth <= MAX_BLOCK_DEPTH + 1,
    ensures
        reaches(
            r,
            final(scope)@,
            final(out)@,
            rounds(
                nodes_view(body@),
                var@,
                jsons(items@),
                0,
                (bound_view(old(scope)@), old(out)@),
                facts_view(facts@),
                depth as nat,
            ),
        ),
    decreases body, 1int,
{
    let ghost bv = nodes_view(body@);
    let ghost iv = jsons(items@);
    let ghost fv = facts_view(facts@);
    let ghost want = rounds(bv, var@, iv, 0, (bound_view(scope@), out@), fv, depth as nat);
    let n: usize = items.len();
    let mut i: usize = 0;
    while i < n
        invariant
            i <= n == items@.len(),
            depth <= MAX_BLOCK_DEPTH + 1,
            bv == nodes_view(body@),
            iv == jsons(items@),
            fv == facts_view(facts@),
            want == rounds(bv, var@, iv, 0, (bound_view(old(scope)@), old(out)@), fv, depth as nat),
            want == rounds(bv, var@, iv, i as nat, (bound_view(scope@), out@), fv, depth as nat),
        decreases n - i,
    {
        assert(iv[i as int] == items@[i as int]@);
        bind(scope, var, items[i].copy());
        bind(scope, "loop", loop_info(i, n));
        match exec(body, scope, out, facts, depth) {
            Ok(_) => {},
            Err(h) => {
                return Err(h);
            },
        }
        i += 1;
    }
    Ok(())
}

impl Template {
    /// The tree that was parsed.
    pub closed spec fn tree(self) -> Seq<NodeV> {
        nodes_view(self.nodes@)
    }

    /// The text that was parsed.
    pub closed spec fn text(self) -> Seq<char> {
        self.source@
    }

    /// Parse a Jinja chat template, or say why it cannot be handled.
    pub fn parse(src: &str) -> (r: Result<Template, String>)
        ensures
            match r {
                Ok(t) => parsed(src@) == Ok::<Seq<NodeV>, Seq<char>>(t.tree()) && t.text() == src@,
                Err(e) => parsed(src@) == Err::<Seq<NodeV>, Seq<char>>(e@),
            },
    {
        let pieces = match lex(src) {
            Ok(p) => p,
            Err(e) => {
                return Err(e);
            },
        };
        match parse_block(&pieces, 0, Until::End) {
            Ok((nodes, _)) => Ok(Template { nodes, source: src.to_owned() }),
            Err(e) => Err(e),
        }
    }

    pub fn source(&self) -> (r: &str)
        ensures
            r@ == self.text(),
    {
        self.source.as_str()
    }

    /// Render with `messages`, and the flags templates expect to find. Templates
    /// that branch on tools take the no-tools path. The arithmetic that the
    /// template needs is answered by `facts`.
    pub fn render(
        &self,
        messages: &Vec<Json>,
        add_generation_prompt: bool,
        bos: &str,
        eos: &str,
        facts: &Vec<Fact>,
    ) -> (r: Result<String, Halt>)
        ensures
            ({
                let scope = initial_scope(jsons(messages@), add_generation_prompt, bos@, eos@);
                match r {
                    Ok(out) => (run(self.tree(), 0, (scope, Seq::empty()), facts_view(facts@), 0) matches Ok(s)
                        && s.1 == out@),
                    Err(h) => run(self.tree(), 0, (scope, Seq::empty()), facts_view(facts@), 0) == Err::<
                        State,
                        HaltV,
                    >(h@),
                }
            }),
    {
        let mut scope: StringHashMap<Json> = StringHashMap::new();
        assert(bound_view(scope@) =~= Map::<Seq<char>, JsonV>::empty());
        let mut list: Vec<Json> = Vec::new();
        let mut i: usize = 0;
        while i < messages.len()
            invariant
                i <= messages@.len(),
                list@.len() == i,
                forall|k: int| 0 <= k < i ==> (#[trigger] list@[k])@ == messages@[k]@,
            decreases messages.len() - i,
        {
            list.push(messages[i].copy());
            i += 1;
        }
        let all = Json::Arr(list);
        assert(all@->Arr_0 =~= jsons(messages@));
        bind(&mut scope, "messages", all);
        bind(&mut scope, "add_generation_prompt", Json::Bool(add_generation_prompt));
        bind(&mut scope, "bos_token", Json::Str(bos.to_owned()));
        bind(&mut scope, "eos_token", Json::Str(eos.to_owned()));
        bind(&mut scope, "tools", Json::Null);
        bind(&mut scope, "tools_in_user_message", Json::Bool(false));
        let mut out = String::new();
        match exec(&self.nodes, &mut scope, &mut out, facts, 0) {
            Ok(_) => Ok(out),
            Err(h) => Err(h),
        }
    }
}

/// What a name is bound to.
pub open spec fn binding_of(scope: Bound, name: Seq<char>) -> Option<JsonV> {
    if scope.dom().contains(name) {
        Some(scope[name])
    } else {
        None
    }
}

/// The variable of a loop and `loop` itself are scoped to the loop: after it,
/// both are bound as before.
pub proof fn law_loops_are_scoped(
    var: Seq<char>,
    iter: ExprV,
    body: Seq<NodeV>,
    s: State,
    facts: Seq<(AskV, JsonV)>,
    depth: nat,
)
    ensures
        step(NodeV::For { var, iter, body }, s, facts, depth) matches Ok(t) ==> binding_of(t.0, var) == binding_of(
            s.0,
            var,
        ) && binding_of(t.0, "loop"@) == binding_of(s.0, "loop"@),
{
}

proof fn lemma_plain_cut(s: Seq<char>, i: nat)
    requires
        i <= s.len(),
        forall|k: int| 0 <= k < s.len() ==> !crate::chat_lex::opens(s, k),
    ensures
        crate::chat_lex::cut(s, i as int, s.subrange(0, i as int)) == Ok::<Seq<crate::chat_lex::PieceV>, Seq<char>>(
            crate::chat_lex::flushed(s),
        ),
    decreases s.len() - i,
{
    if i < s.len() {
        lemma_plain_cut(s, i + 1);
        assert(s.subrange(0, i as int).push(s[i as int]) =~= s.subrange(0, i as int + 1));
    } else {
        assert(s.subrange(0, i as int) =~= s);
    }
}

/// Text passes through untouched: a template in which nothing opens renders as
/// itself.
pub proof fn law_text_passes_through(src: Seq<char>, scope: Bound, facts: Seq<(AskV, JsonV)>)
    requires
        forall|k: int| 0 <= k < src.len() ==> !crate::chat_lex::opens(src, k),
    ensures
        parsed(src) matches Ok(nodes) && run(nodes, 0, (scope, Seq::empty()), facts, 0) == Ok::<State, HaltV>(
            (scope, src),
        ),
{
    lemma_plain_cut(src, 0);
    assert(src.subrange(0, 0) =~= Seq::<char>::empty());
    let p = crate::chat_lex::flushed(src);
    assert(crate::chat_lex::controlled(p) =~= p);
    reveal_with_fuel(block, 3);
    reveal_with_fuel(run, 3);
    if src.len() > 0 {
        let nodes = Seq::<NodeV>::empty().push(NodeV::Text(src));
        assert(parsed(src) == Ok::<Seq<NodeV>, Seq<char>>(nodes));
        assert(Seq::<char>::empty() + src =~= src);
    } else {
        assert(src =~= Seq::<char>::empty());
    }
}

} // verus!
