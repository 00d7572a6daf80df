use boom::bang::{parse_bang_indexes, parse_bang_indexes_iter};

fn retrieve_bang(s: &str) -> Option<(usize, usize)> {
    let chunked = parse_bang_indexes(s).map(|m| (m.start, m.end));
    let scalar = parse_bang_indexes_iter(s).map(|m| (m.start, m.end));
    assert_eq!(chunked, scalar);
    chunked
}

#[test]
fn test_bang_retrieval_none() {
    let str = "youtube";
    let indices = retrieve_bang(str);
    assert_eq!(indices, None)
}

#[test]
fn test_bang_retrieval_prefix() {
    let prefix = "!local youtube";
    let indices = retrieve_bang(prefix);
    assert_eq!(indices, Some((0, 6)))
}

#[test]
fn test_bang_retrieval_suffix() {
    let suffix = "youtube !local";
    let indices = retrieve_bang(suffix);
    assert_eq!(indices, Some((8, suffix.len())))
}

#[test]
fn test_bang_retrieval_suffix_long() {
    let suffix = "a long query that i want search lol on youtube !local";
    let indices = retrieve_bang(suffix);
    assert_eq!(indices, Some((suffix.len() - 6, suffix.len())))
}

#[test]
fn test_bang_retrieval_suffix_invalid() {
    let invalid_suffix = "test!gh";
    let indices = retrieve_bang(invalid_suffix);
    assert_eq!(indices, None)
}

#[test]
fn test_bang_retrieval_suffix_long_invalid() {
    let suffix = "a long query that i want search lol on youtube!local";
    let indices = retrieve_bang(suffix);
    assert_eq!(indices, None)
}

#[test]
fn test_bang_retrieval_infix() {
    let infix = "search for this on !g please and !dont let others !work";
    let indices = retrieve_bang(infix);
    assert_eq!(indices, Some((19, 21)))
}

#[test]
fn test_bang_invalid_proceeding_space() {
    let infix = "test! ";
    let indices = retrieve_bang(infix);
    assert_eq!(indices, None)
}

#[test]
fn test_bang_invalid_preceeding_space() {
    let infix = "test! !gh";
    let indices = retrieve_bang(infix);
    assert_eq!(indices, Some((6, infix.len())))
}

#[test]
fn test_bang_invalid_single_char() {
    let infix = "! test !gh";
    let indices = retrieve_bang(infix);
    assert_eq!(indices, Some((7, infix.len())))
}

#[test]
fn bang_alone_at_end_is_not_a_bang() {
    assert_eq!(retrieve_bang("test !"), None);
    assert_eq!(retrieve_bang("!"), None);
    assert_eq!(retrieve_bang(""), None);
}

#[test]
fn bang_runs_to_end_of_word() {
    assert_eq!(retrieve_bang("!yt"), Some((0, 3)));
    assert_eq!(retrieve_bang("a !b!c d"), Some((2, 6)));
}

#[test]
fn bang_after_multibyte_text() {
    let q = "café !gh x";
    assert_eq!(retrieve_bang(q), Some((6, 9)));
    assert_eq!(&q[6..9], "!gh");
}

#[test]
fn bang_around_chunk_edges() {
    for pos in [14usize, 15, 16, 17, 30, 31, 32, 33, 47, 48] {
        let mut q = "a".repeat(pos);
        if pos > 0 {
            q.replace_range(pos - 1..pos, " ");
        }
        q.push_str("!gh tail");
        assert_eq!(retrieve_bang(&q), Some((pos, pos + 3)), "bang at {}", pos);
    }
}

#[test]
fn bang_first_of_many_in_one_chunk() {
    // The first `!` of the block is no bang; the second is.
    let q = "ab!c !d efghijklmnopqrstuvwxyz";
    assert_eq!(retrieve_bang(q), Some((5, 7)));
}
