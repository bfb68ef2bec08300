//! Where models come from and where they go.

use moe::fetch::{
    cache_dir, file_url, listing_url, no_weights, parse, refusal, repo_dir, resolve, sanitize, sizes, snapshot, stem, url_name,
    wanted, Base, Platform, Resolve, Source, Vars,
};
use moe::json::Json;

fn doc(text: &str) -> Json {
    moe::parse::parse(text.as_bytes()).unwrap()
}

fn hub(s: Source) -> (String, String) {
    match s {
        Source::Hub { repo, rev } => (repo, rev),
        other => panic!("not a repo: {other:?}"),
    }
}

/// A Hub download must bring the files the engine reads, and no more. The
/// prompt format lives in `tokenizer_config.json`, and leaving it behind
/// makes the chat template silently unavailable.
#[test]
fn the_download_list_covers_the_prompt_format() {
    let wanted = wanted();
    assert!(wanted.contains(&"config.json"), "architecture detection needs it");
    assert!(wanted.contains(&"tokenizer.json"), "text in and out needs it");
    assert!(wanted.contains(&"tokenizer_config.json"), "the chat template lives here");
    assert!(wanted.contains(&"chat_template.jinja"), "...or here, in the newer convention");
    // Everything else in a repo is weights, conversions or demos, which are
    // picked by extension rather than by name.
    assert!(wanted.iter().all(|w| w.ends_with(".json") || w.ends_with(".jinja")));
}

#[test]
fn specs_are_classified() {
    assert_eq!(hub(parse("owner/name", false)), ("owner/name".to_string(), "main".to_string()));
    assert_eq!(hub(parse("owner/name@v2", false)), ("owner/name".to_string(), "v2".to_string()));
    assert_eq!(hub(parse("hf:owner/name", false)), ("owner/name".to_string(), "main".to_string()));
    // A Hub model page is the repo, but a file under it is a download.
    assert_eq!(hub(parse("https://huggingface.co/owner/name", false)), ("owner/name".to_string(), "main".to_string()));
    assert!(matches!(parse("https://huggingface.co/owner/name/resolve/main/x.moe", false), Source::Url(_)));
    assert!(matches!(parse("https://example.com/m.moe", false), Source::Url(_)));
    // Paths, including Windows ones and anything with more segments.
    assert!(matches!(parse("./models/x", false), Source::Local(_)));
    assert!(matches!(parse("C:\\models\\x", false), Source::Local(_)));
    assert!(matches!(parse("a/b/c", false), Source::Local(_)));
    // A revision may hold slashes: only what stands before it is counted.
    assert_eq!(
        hub(parse("mistralai/Mixtral-8x7B-v0.1@refs/pr/7", false)),
        ("mistralai/Mixtral-8x7B-v0.1".to_string(), "refs/pr/7".to_string())
    );
    assert!(matches!(parse("a/b/c@refs/pr/7", false), Source::Local(_)));
    assert_eq!(hub(parse("a@b/c", false)), ("a".to_string(), "b/c".to_string()));
    // A backslash anywhere makes it a path.
    assert!(matches!(parse("owner/name@a\\b", false), Source::Local(_)));
    assert!(matches!(parse("mistralai/Mixtral-8x7B-v0.1@refs/pr/7", true), Source::Local(_)));
    // An existing path wins over the repo-id shape.
    assert!(matches!(parse("src/lib.rs", true), Source::Local(_)));
}

#[test]
fn a_page_with_a_query_is_a_download() {
    assert!(matches!(parse("https://huggingface.co/owner/name?x=1", false), Source::Url(_)));
    assert_eq!(hub(parse("http://huggingface.co/owner/name/", false)), ("owner/name".to_string(), "main".to_string()));
    assert_eq!(hub(parse("hf:a/b/@dev", false)), ("a/b".to_string(), "dev".to_string()));
}

#[test]
fn the_cache_follows_the_platform() {
    let all = Vars { moe_cache: true, home: true, local_app_data: true, xdg: true };
    assert_eq!(cache_dir(Platform::Other, all), (Base::Override, ""));
    let v = Vars { moe_cache: false, ..all };
    assert_eq!(cache_dir(Platform::Windows, v), (Base::LocalAppData, "moe"));
    assert_eq!(cache_dir(Platform::Mac, v), (Base::Home, "Library/Caches/moe"));
    assert_eq!(cache_dir(Platform::Other, v), (Base::Xdg, "moe"));
    let bare = Vars { moe_cache: false, home: false, local_app_data: false, xdg: false };
    assert_eq!(cache_dir(Platform::Other, bare), (Base::Here, ".cache/moe"));
    assert_eq!(cache_dir(Platform::Other, Vars { home: true, ..bare }), (Base::Home, ".cache/moe"));
}

#[test]
fn resolution_downloads_only_what_is_missing() {
    let local = parse("./nope", false);
    assert!(matches!(resolve(&local, true, false, ""), Resolve::Use));
    match resolve(&local, false, false, "") {
        Resolve::Refuse(m) => assert_eq!(m, "./nope does not exist (a Hub model looks like owner/name)"),
        other => panic!("{other:?}"),
    }
    let url = parse("https://example.com/m.moe", false);
    assert!(matches!(resolve(&url, true, true, ""), Resolve::Use));
    assert!(matches!(resolve(&url, false, false, ""), Resolve::Fetch));
    match resolve(&url, false, true, "") {
        Resolve::Refuse(m) => assert_eq!(m, "https://example.com/m.moe is not cached and --offline was given"),
        other => panic!("{other:?}"),
    }
    let repo = parse("a/b", false);
    assert!(matches!(resolve(&repo, true, false, "/c"), Resolve::Fetch));
    assert!(matches!(resolve(&repo, true, true, "/c"), Resolve::Use));
    match resolve(&repo, false, true, "/c") {
        Resolve::Refuse(m) => assert_eq!(m, "a/b is not cached at /c and --offline was given"),
        other => panic!("{other:?}"),
    }
}

#[test]
fn names_are_made_safe() {
    assert_eq!(sanitize("refs/pr 7"), "refs-pr-7");
    assert_eq!(sanitize("a-b_c.d"), "a-b_c.d");
    assert_eq!(repo_dir("owner/name"), "owner--name");
    assert_eq!(url_name("https://h/x/m.moe"), "m.moe");
    assert_eq!(url_name("https://h/x/"), "model");
    // FNV-1a of the empty text and of one letter.
    assert_eq!(stem(""), "cbf29ce484222325");
    assert_eq!(stem("a"), "af63dc4c8601ec8c");
    assert_eq!(listing_url("a/b", "main"), "https://huggingface.co/api/models/a/b/tree/main?recursive=1");
    assert_eq!(file_url("a/b", "main", "x.moe"), "https://huggingface.co/a/b/resolve/main/x.moe");
}

#[test]
fn refusals_say_what_to_do() {
    assert_eq!(refusal("u", 401).unwrap(), "u: not accessible. If the model is gated or private, set HF_TOKEN");
    assert_eq!(refusal("u", 403).unwrap(), "u: not accessible. If the model is gated or private, set HF_TOKEN");
    assert_eq!(refusal("u", 404).unwrap(), "u: not found");
    assert!(refusal("u", 500).is_none());
    assert_eq!(no_weights("a/b"), "a/b has no .safetensors or .moe files at the top level");
}

#[test]
fn a_snapshot_takes_what_inference_reads() {
    let tree = doc(
        r#"[{"type":"file","path":"config.json","size":3},{"type":"file","path":"model.safetensors","size":10},
            {"type":"file","path":"model.bin","size":99},{"type":"directory","path":"onnx"},
            {"type":"file","path":"onnx/model.safetensors","size":7},{"type":"file","path":"README.md","size":1}]"#,
    );
    let got = snapshot(&tree).unwrap();
    assert_eq!(got, vec![("config.json".to_string(), 3), ("model.safetensors".to_string(), 10)]);
    assert_eq!(sizes(&got, &vec![Some(3), Some(9)]), (13, 3));
    assert_eq!(sizes(&got, &vec![None, Some(10)]), (13, 10));
    // A packed model in the repo is all that is needed.
    let packed = doc(r#"[{"type":"file","path":"config.json","size":3},{"type":"file","path":"m.moe"}]"#);
    assert_eq!(snapshot(&packed).unwrap(), vec![("m.moe".to_string(), 0)]);
    assert!(snapshot(&doc(r#"[{"type":"file","path":"config.json","size":3}]"#)).is_none());
    assert!(snapshot(&doc("{}")).is_none());
}
