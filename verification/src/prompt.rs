//! How a chat turn becomes a prompt: the checkpoint's own template if it ships one the
//! engine can render, otherwise a format inferred from the vocabulary.

use vstd::prelude::*;
use vstd::string::*;
use crate::chat::{initial_scope, parsed, run, Template};
use crate::chat_eval::{facts_view, jsons, AskV, Fact, Halt, HaltV};
use crate::chat_tree::NodeV;
use crate::json::{Json, JsonV};
use crate::text::{join, same};
use crate::tokenizer::{Tokenizer, TokenizerV};

verus! {

/// A chat template reduced to what these models actually need: a wrapper per
/// role, and the opening of the assistant's turn.
#[derive(Clone, Copy, Debug)]
pub struct ChatFormat {
    pub name: &'static str,
    /// Emitted once, before any turn.
    pub prefix: &'static str,
    pub system: (&'static str, &'static str),
    pub user: (&'static str, &'static str),
    pub assistant: (&'static str, &'static str),
    pub generation: &'static str,
    /// Mistral has no system role; its system text joins the first user turn.
    pub fold_system: bool,
}

/// What a [`ChatFormat`] holds.
#[verifier::ext_equal]
pub struct ChatFormatV {
    pub name: Seq<char>,
    pub prefix: Seq<char>,
    pub system: (Seq<char>, Seq<char>),
    pub user: (Seq<char>, Seq<char>),
    pub assistant: (Seq<char>, Seq<char>),
    pub generation: Seq<char>,
    pub fold_system: bool,
}

impl View for ChatFormat {
    type V = ChatFormatV;

    open spec fn view(&self) -> ChatFormatV {
        ChatFormatV {
            name: self.name@,
            prefix: self.prefix@,
            system: (self.system.0@, self.system.1@),
            user: (self.user.0@, self.user.1@),
            assistant: (self.assistant.0@, self.assistant.1@),
            generation: self.generation@,
            fold_system: self.fold_system,
        }
    }
}

/// The format of models whose turns stand between `<|im_start|>` and `<|im_end|>`.
pub open spec fn chatml_format() -> ChatFormatV {
    ChatFormatV {
        name: "chatml"@,
        prefix: ""@,
        system: ("<|im_start|>system\n"@, "<|im_end|>\n"@),
        user: ("<|im_start|>user\n"@, "<|im_end|>\n"@),
        assistant: ("<|im_start|>assistant\n"@, "<|im_end|>\n"@),
        generation: "<|im_start|>assistant\n"@,
        fold_system: false,
    }
}

/// The format of models whose turns have a header.
pub open spec fn llama3_format() -> ChatFormatV {
    ChatFormatV {
        name: "llama3"@,
        prefix: "<|begin_of_text|>"@,
        system: ("<|start_header_id|>system<|end_header_id|>\n\n"@, "<|eot_id|>"@),
        user: ("<|start_header_id|>user<|end_header_id|>\n\n"@, "<|eot_id|>"@),
        assistant: ("<|start_header_id|>assistant<|end_header_id|>\n\n"@, "<|eot_id|>"@),
        generation: "<|start_header_id|>assistant<|end_header_id|>\n\n"@,
        fold_system: false,
    }
}

/// The format of models whose user turns stand between `[INST]` and `[/INST]`.
pub open spec fn mistral_format() -> ChatFormatV {
    ChatFormatV {
        name: "mistral"@,
        prefix: "<s>"@,
        system: (""@, ""@),
        user: ("[INST] "@, " [/INST]"@),
        assistant: (""@, "</s> "@),
        generation: ""@,
        fold_system: true,
    }
}

fn chatml() -> (r: ChatFormat)
    ensures
        r@ == chatml_format(),
{
    ChatFormat {
        name: "chatml",
        prefix: "",
        system: ("<|im_start|>system\n", "<|im_end|>\n"),
        user: ("<|im_start|>user\n", "<|im_end|>\n"),
        assistant: ("<|im_start|>assistant\n", "<|im_end|>\n"),
        generation: "<|im_start|>assistant\n",
        fold_system: false,
    }
}

fn llama3() -> (r: ChatFormat)
    ensures
        r@ == llama3_format(),
{
    ChatFormat {
        name: "llama3",
        prefix: "<|begin_of_text|>",
        system: ("<|start_header_id|>system<|end_header_id|>\n\n", "<|eot_id|>"),
        user: ("<|start_header_id|>user<|end_header_id|>\n\n", "<|eot_id|>"),
        assistant: ("<|start_header_id|>assistant<|end_header_id|>\n\n", "<|eot_id|>"),
        generation: "<|start_header_id|>assistant<|end_header_id|>\n\n",
        fold_system: false,
    }
}

fn mistral() -> (r: ChatFormat)
    ensures
        r@ == mistral_format(),
{
    ChatFormat {
        name: "mistral",
        prefix: "<s>",
        system: ("", ""),
        user: ("[INST] ", " [/INST]"),
        assistant: ("", "</s> "),
        generation: "",
        fold_system: true,
    }
}

/// The format that a name asks for.
pub open spec fn format_named(name: Seq<char>) -> Option<ChatFormatV> {
    if name == "chatml"@ {
        Some(chatml_format())
    } else if name == "llama3"@ {
        Some(llama3_format())
    } else if name == "mistral"@ {
        Some(mistral_format())
    } else {
        None
    }
}

/// The format that the control tokens of a vocabulary show.
pub open spec fn format_shown(t: TokenizerV) -> Option<ChatFormatV> {
    if t.vocab.dom().contains("<|im_start|>"@) {
        Some(chatml_format())
    } else if t.vocab.dom().contains("<|start_header_id|>"@) {
        Some(llama3_format())
    } else if t.vocab.dom().contains("[/INST]"@) {
        Some(mistral_format())
    } else {
        None
    }
}

/// The role of a message.
pub open spec fn role_of(m: JsonV) -> Seq<char> {
    match m.field("role"@).as_str() {
        Some(r) => r,
        None => "user"@,
    }
}

/// The text of a message.
pub open spec fn content_of(m: JsonV) -> Seq<char> {
    match m.field("content"@).as_str() {
        Some(c) => c,
        None => ""@,
    }
}

impl ChatFormatV {
    /// What stands around the text of a role, where there is such a role.
    pub open spec fn wrap(self, role: Seq<char>) -> Option<(Seq<char>, Seq<char>)> {
        if role == "system"@ {
            Some(self.system)
        } else if role == "assistant"@ {
            Some(self.assistant)
        } else if role == "user"@ || role == "tool"@ || role == "function"@ {
            Some(self.user)
        } else {
            None
        }
    }

    /// The first `n` messages as a prompt, and the system text that still waits for a
    /// user turn to join.
    pub open spec fn turns(self, m: Seq<JsonV>, n: nat) -> Result<(Seq<char>, Seq<char>), Seq<char>>
        decreases n,
    {
        if n == 0 || n > m.len() {
            Ok((self.prefix, ""@))
        } else {
            match self.turns(m, (n - 1) as nat) {
                Err(e) => Err(e),
                Ok((out, pending)) => {
                    let role = role_of(m[n - 1]);
                    let content = content_of(m[n - 1]);
                    match self.wrap(role) {
                        None => Err("unsupported role: "@ + role),
                        Some(w) => if role == "system"@ && self.fold_system {
                            Ok((out, content + "\n\n"@))
                        } else if role == "user"@ && pending.len() > 0 {
                            Ok((out + w.0 + (pending + content) + w.1, ""@))
                        } else {
                            Ok((out + w.0 + content + w.1, pending))
                        },
                    }
                },
            }
        }
    }

    /// Messages as a prompt.
    pub open spec fn rendered(self, m: Seq<JsonV>) -> Result<Seq<char>, Seq<char>> {
        match self.turns(m, m.len()) {
            Ok((out, _)) => Ok(out + self.generation),
            Err(e) => Err(e),
        }
    }
}

/// A conversation grows by appending: the prompt of its first turns stands at the start
/// of the prompt of all of them, so that what is cached of it stays good.
pub proof fn law_turns_append(f: ChatFormatV, m: Seq<JsonV>, k: nat, n: nat)
    requires
        k <= n <= m.len(),
        f.turns(m, n) is Ok,
    ensures
        f.turns(m, k) is Ok,
        f.turns(m, k)->Ok_0.0.len() <= f.turns(m, n)->Ok_0.0.len(),
        f.turns(m, n)->Ok_0.0.take(f.turns(m, k)->Ok_0.0.len() as int) == f.turns(m, k)->Ok_0.0,
    decreases n - k,
{
    let a = f.turns(m, k);
    let b = f.turns(m, n);
    if k == n {
        assert(b->Ok_0.0.take(a->Ok_0.0.len() as int) =~= a->Ok_0.0);
    } else {
        assert(f.turns(m, (n - 1) as nat) is Ok);
        law_turns_append(f, m, k, (n - 1) as nat);
        let c = f.turns(m, (n - 1) as nat);
        assert(b->Ok_0.0.take(c->Ok_0.0.len() as int) =~= c->Ok_0.0);
        assert(b->Ok_0.0.take(a->Ok_0.0.len() as int) =~= c->Ok_0.0.take(a->Ok_0.0.len() as int));
    }
}

impl ChatFormat {
    pub fn by_name(name: &str) -> (r: Option<ChatFormat>)
        ensures
            match r {
                Some(f) => format_named(name@) == Some(f@),
                None => format_named(name@) is None,
            },
    {
        if same(name, "chatml") {
            Some(chatml())
        } else if same(name, "llama3") {
            Some(llama3())
        } else if same(name, "mistral") {
            Some(mistral())
        } else {
            None
        }
    }

    /// Pick a format from the control tokens the vocabulary carries, the same
    /// introspection the rest of the engine uses. A checkpoint with none of
    /// them is a base model, and guessing would silently mis-prompt it.
    pub fn detect(tok: &Tokenizer) -> (r: Option<ChatFormat>)
        ensures
            match r {
                Some(f) => format_shown(tok@) == Some(f@),
                None => format_shown(tok@) is None,
            },
    {
        if tok.has_token("<|im_start|>") {
            Some(chatml())
        } else if tok.has_token("<|start_header_id|>") {
            Some(llama3())
        } else if tok.has_token("[/INST]") {
            Some(mistral())
        } else {
            None
        }
    }

    fn wrap(&self, role: &str) -> (r: Option<(&'static str, &'static str)>)
        ensures
            match r {
                Some(w) => self@.wrap(role@) == Some((w.0@, w.1@)),
                None => self@.wrap(role@) is None,
            },
    {
        if same(role, "system") {
            Some(self.system)
        } else if same(role, "assistant") {
            Some(self.assistant)
        } else if same(role, "user") || same(role, "tool") || same(role, "function") {
            Some(self.user)
        } else {
            None
        }
    }

    /// Render OpenAI `messages` into a prompt.
    pub fn render(&self, messages: &Vec<Json>) -> (r: Result<String, String>)
        ensures
            match r {
                Ok(s) => self@.rendered(jsons(messages@)) == Ok::<Seq<char>, Seq<char>>(s@),
                Err(e) => self@.rendered(jsons(messages@)) == Err::<Seq<char>, Seq<char>>(e@),
            },
    {
        let ghost m = jsons(messages@);
        let mut out: String = self.prefix.to_owned();
        let mut pending: String = "".to_owned();
        let mut i: usize = 0;
        while i < messages.len()
            invariant
                i <= messages@.len(),
                m == jsons(messages@),
                self@.turns(m, i as nat) == Ok::<(Seq<char>, Seq<char>), Seq<char>>((out@, pending@)),
            decreases messages.len() - i,
        {
            let role: &str = match messages[i].field("role").as_str() {
                Some(r) => r,
                None => "user",
            };
            let content: &str = match messages[i].field("content").as_str() {
                Some(c) => c,
                None => "",
            };
            assert(m[i as int] == messages@[i as int]@);
            assert(role@ == role_of(m[i as int]));
            assert(content@ == content_of(m[i as int]));
            match self.wrap(role) {
                None => {
                    let e = join("unsupported role: ", role);
                    proof {
                        lemma_refused(self@, m, (i + 1) as nat, m.len());
                    }
                    return Err(e);
                },
                Some(w) => {
                    if same(role, "system") && self.fold_system {
                        pending = join(content, "\n\n");
                    } else if same(role, "user") && !pending.as_str().is_empty() {
                        let body = join(pending.as_str(), content);
                        out.append(w.0);
                        out.append(body.as_str());
                        out.append(w.1);
                        pending = "".to_owned();
                    } else {
                        out.append(w.0);
                        out.append(content);
                        out.append(w.1);
                    }
                },
            }
            i += 1;
        }
        out.append(self.generation);
        Ok(out)
    }
}

proof fn lemma_refused(f: ChatFormatV, m: Seq<JsonV>, k: nat, n: nat)
    requires
        k <= n <= m.len(),
        f.turns(m, k) is Err,
    ensures
        f.turns(m, n) == f.turns(m, k),
    decreases n,
{
    if k < n {
        lemma_refused(f, m, k, (n - 1) as nat);
    }
}

/// How a chat turn becomes a prompt.
pub enum Prompting {
    /// The template `tokenizer_config.json` declared.
    Template(Template),
    /// One of the three built-in shapes, matched on a control token.
    Detected(ChatFormat),
}

/// What a [`Prompting`] holds.
pub enum PromptingV {
    Template(Seq<NodeV>),
    Detected(ChatFormatV),
}

impl View for Prompting {
    type V = PromptingV;

    open spec fn view(&self) -> PromptingV {
        match *self {
            Prompting::Template(t) => PromptingV::Template(t.tree()),
            Prompting::Detected(f) => PromptingV::Detected(f@),
        }
    }
}

/// The checkpoint's declaration where there is one that can be rendered, and otherwise
/// what its vocabulary shows.
pub open spec fn prompting_of(template: Option<Seq<char>>, tok: Option<TokenizerV>) -> Option<PromptingV> {
    let detected = match tok {
        Some(t) => match format_shown(t) {
            Some(f) => Some(PromptingV::Detected(f)),
            None => None,
        },
        None => None,
    };
    match template {
        Some(src) => match parsed(src) {
            Ok(nodes) => Some(PromptingV::Template(nodes)),
            Err(_) => detected,
        },
        None => detected,
    }
}

/// What is said of a template that cannot be rendered.
pub open spec fn template_note(template: Option<Seq<char>>) -> Option<Seq<char>> {
    match template {
        Some(src) => match parsed(src) {
            Ok(_) => None,
            Err(e) => Some("the checkpoint's chat template is beyond this engine ("@ + (e + "); detecting instead"@)),
        },
        None => None,
    }
}

pub open spec fn str_view(s: Option<&str>) -> Option<Seq<char>> {
    match s {
        Some(t) => Some(t@),
        None => None,
    }
}

pub open spec fn string_view(s: Option<String>) -> Option<Seq<char>> {
    match s {
        Some(t) => Some(t@),
        None => None,
    }
}

pub open spec fn tok_view(t: Option<&Tokenizer>) -> Option<TokenizerV> {
    match t {
        Some(t) => Some(t@),
        None => None,
    }
}

pub open spec fn prompting_view(p: Option<Prompting>) -> Option<PromptingV> {
    match p {
        Some(p) => Some(p@),
        None => None,
    }
}

impl PromptingV {
    /// Messages as a prompt, or why not.
    pub open spec fn rendered(self, m: Seq<JsonV>, bos: Seq<char>, eos: Seq<char>, facts: Seq<(AskV, JsonV)>) -> Result<
        Seq<char>,
        HaltV,
    > {
        match self {
            PromptingV::Template(nodes) => match run(
                nodes,
                0,
                (initial_scope(m, true, bos, eos), Seq::empty()),
                facts,
                0,
            ) {
                Ok(s) => Ok(s.1),
                Err(h) => Err(h),
            },
            PromptingV::Detected(f) => match f.rendered(m) {
                Ok(s) => Ok(s),
                Err(e) => Err(HaltV::Error(e)),
            },
        }
    }

    /// The marker that closes an assistant turn.
    pub open spec fn turn_end(self) -> Option<Seq<char>> {
        match self {
            PromptingV::Detected(f) if f.assistant.1.len() > 0 => Some(f.assistant.1),
            _ => None,
        }
    }
}

impl Prompting {
    /// Prefer the checkpoint's declaration; fall back to detection when it is
    /// absent or uses Jinja beyond what this engine renders. Falling back is
    /// better than failing, and both are better than rendering it wrongly.
    /// Gives a note where a template is passed over.
    pub fn resolve(template: Option<&str>, tok: Option<&Tokenizer>) -> (r: (Option<Prompting>, Option<String>))
        ensures
            prompting_view(r.0) == prompting_of(str_view(template), tok_view(tok)),
            string_view(r.1) == template_note(str_view(template)),
    {
        let mut note: Option<String> = None;
        match template {
            Some(src) => match Template::parse(src) {
                Ok(t) => {
                    return (Some(Prompting::Template(t)), None);
                },
                Err(e) => {
                    let tail = join(e.as_str(), "); detecting instead");
                    note = Some(join("the checkpoint's chat template is beyond this engine (", tail.as_str()));
                },
            },
            None => {},
        }
        match tok {
            Some(t) => match ChatFormat::detect(t) {
                Some(f) => (Some(Prompting::Detected(f)), note),
                None => (None, note),
            },
            None => (None, note),
        }
    }

    pub fn name(&self) -> (r: &'static str)
        ensures
            r@ == (match self@ {
                PromptingV::Template(_) => "the checkpoint's own template"@,
                PromptingV::Detected(f) => f.name,
            }),
    {
        match self {
            Prompting::Template(_) => "the checkpoint's own template",
            Prompting::Detected(f) => f.name,
        }
    }

    /// The marker that closes an assistant turn, which is also where generation
    /// should stop whether or not the checkpoint made it an EOS token. A template's stop
    /// marker is the checkpoint's EOS, which the decode loop already honours.
    pub fn turn_end(&self) -> (r: Option<&'static str>)
        ensures
            str_view(r) == self@.turn_end(),
    {
        match self {
            Prompting::Detected(f) => if f.assistant.1.is_empty() {
                None
            } else {
                Some(f.assistant.1)
            },
            Prompting::Template(_) => None,
        }
    }

    /// Messages as a prompt. The arithmetic that a template needs is answered by `facts`.
    pub fn render(&self, messages: &Vec<Json>, bos: &str, eos: &str, facts: &Vec<Fact>) -> (r: Result<String, Halt>)
        ensures
            match r {
                Ok(s) => self@.rendered(jsons(messages@), bos@, eos@, facts_view(facts@)) == Ok::<Seq<char>, HaltV>(s@),
                Err(h) => self@.rendered(jsons(messages@), bos@, eos@, facts_view(facts@)) == Err::<Seq<char>, HaltV>(
                    h@,
                ),
            },
    {
        match self {
            Prompting::Template(t) => t.render(messages, true, bos, eos, facts),
            Prompting::Detected(f) => match f.render(messages) {
                Ok(s) => Ok(s),
                Err(e) => Err(Halt::Error(e)),
            },
        }
    }
}

} // verus!
