use boom::cache::{get_bang, init_list, insert_bang, Redirect, Registry};
use boom::encode::encode_query;
use boom::resolver::{fill_template, resolve};

const DEFAULT_TEMPLATE: &str = "https://google.com/search?q={{{s}}}";

fn redirect(short_name: &str, trigger: &str, url_template: &str) -> Redirect {
    Redirect {
        short_name: short_name.to_string(),
        trigger: trigger.to_string(),
        url_template: url_template.to_string(),
    }
}

fn youtube_registry() -> Registry {
    let mut reg = Registry::new();
    init_list(
        &mut reg,
        vec![redirect(
            "YouTube",
            "yt",
            "https://youtube.com/results?search_query={{{s}}}",
        )],
        true,
    )
    .unwrap();
    insert_bang(&mut reg, "yt".to_string(), 0);
    reg
}

#[test]
fn test_resolve_no_bang() {
    let reg = Registry::new();
    let query = "test query";
    assert_eq!(
        resolve(query, DEFAULT_TEMPLATE, &reg),
        "https://google.com/search?q=test%20query"
    );
}

#[test]
fn test_resolve_bang_prefix() {
    let reg = youtube_registry();
    let query = "!yt test query";
    assert_eq!(
        resolve(query, DEFAULT_TEMPLATE, &reg),
        "https://youtube.com/results?search_query=test%20query"
    );
}

#[test]
fn test_resolve_bang_suffix() {
    let reg = youtube_registry();
    let query = "test query !yt";
    assert_eq!(
        resolve(query, DEFAULT_TEMPLATE, &reg),
        "https://youtube.com/results?search_query=test%20query"
    );
}

#[test]
fn test_resolve_bang_slash() {
    let mut reg = youtube_registry();
    init_list(
        &mut reg,
        vec![redirect("GitHub", "gh", "https://github.com/{{{s}}}")],
        true,
    )
    .unwrap();
    insert_bang(&mut reg, "gh".to_string(), 1);

    let query = "tobybridle/boom !gh";
    assert_eq!(
        resolve(query, DEFAULT_TEMPLATE, &reg),
        "https://github.com/tobybridle/boom"
    );
}

#[test]
fn unknown_bang_falls_back_to_default_with_rest() {
    let reg = youtube_registry();
    assert_eq!(
        resolve("cats !nope", DEFAULT_TEMPLATE, &reg),
        "https://google.com/search?q=cats"
    );
}

#[test]
fn infix_bang_keeps_one_space() {
    let reg = youtube_registry();
    assert_eq!(
        resolve("funny !yt cats", DEFAULT_TEMPLATE, &reg),
        "https://youtube.com/results?search_query=funny%20cats"
    );
}

#[test]
fn bang_alone_gives_empty_search() {
    let reg = youtube_registry();
    assert_eq!(
        resolve("!yt", DEFAULT_TEMPLATE, &reg),
        "https://youtube.com/results?search_query="
    );
}

#[test]
fn template_without_placeholder_is_returned_verbatim() {
    let reg = Registry::new();
    assert_eq!(
        resolve("test query", "https://example.com/", &reg),
        "https://example.com/"
    );
}

#[test]
fn only_first_placeholder_is_filled() {
    let mut reg = Registry::new();
    init_list(
        &mut reg,
        vec![redirect("Two", "two", "https://x.org/{{{s}}}/and/{{{s}}}?q=1")],
        false,
    )
    .unwrap();
    insert_bang(&mut reg, "two".to_string(), 0);
    assert_eq!(
        resolve("!two a b", DEFAULT_TEMPLATE, &reg),
        "https://x.org/a%20b/and/{{{s}}}?q=1"
    );
}

#[test]
fn plain_query_ignores_registry() {
    let reg = youtube_registry();
    assert_eq!(
        resolve("yt rust/cargo", DEFAULT_TEMPLATE, &reg),
        "https://google.com/search?q=yt%20rust/cargo"
    );
}

#[test]
fn bang_in_word_is_plain_text() {
    let reg = youtube_registry();
    assert_eq!(
        resolve("wow!yt", DEFAULT_TEMPLATE, &reg),
        "https://google.com/search?q=wow%21yt"
    );
}

#[test]
fn manual_construction_matches_resolution() {
    let reg = youtube_registry();
    let idx = get_bang(&reg, "yt").unwrap();
    assert_eq!(idx, 0);
    let expected = fill_template(
        "https://youtube.com/results?search_query={{{s}}}",
        &encode_query("a/b c"),
    );
    assert_eq!(resolve("!yt a/b c", DEFAULT_TEMPLATE, &reg), expected);
}

#[test]
fn encode_query_keeps_slashes_and_encodes_the_rest() {
    assert_eq!(encode_query("a b/c"), "a%20b/c");
    assert_eq!(encode_query("café"), "caf%C3%A9");
    assert_eq!(encode_query("x%2Fy"), "x%252Fy");
    assert_eq!(encode_query("A-z_0.9~"), "A-z_0.9~");
    assert_eq!(encode_query(""), "");
}

#[test]
fn multibyte_query_around_bang() {
    let reg = youtube_registry();
    assert_eq!(
        resolve("héllo !yt wörld", DEFAULT_TEMPLATE, &reg),
        "https://youtube.com/results?search_query=h%C3%A9llo%20w%C3%B6rld"
    );
}
