use boom::bang::{parse_bang_indexes, parse_bang_indexes_iter};
use boom::span::Match;
use boom::template::{iterative_parse_template_indexes, parse_template_indexes};

struct Lcg(u64);

impl Lcg {
    fn next(&mut self) -> u64 {
        self.0 = self.0.wrapping_mul(6364136223846793005).wrapping_add(1442695040888963407);
        self.0 >> 33
    }
}

const PIECES: [&str; 9] = ["!", " ", "{", "}", "s", "a", "{{{s}}}", "é", "!x"];

fn random_text(rng: &mut Lcg, max_len: usize) -> String {
    let target = (rng.next() as usize) % (max_len + 1);
    let mut s = String::new();
    while s.len() < target {
        let p = PIECES[(rng.next() as usize) % PIECES.len()];
        if s.len() + p.len() > target {
            s.push('a');
        } else {
            s.push_str(p);
        }
    }
    s
}

fn spans(r: Option<[Match; 2]>) -> Option<[(usize, usize); 2]> {
    r.map(|a| [(a[0].start, a[0].end), (a[1].start, a[1].end)])
}

#[test]
fn chunked_and_scalar_bang_scans_agree() {
    let mut rng = Lcg(7);
    for _ in 0..4000 {
        let s = random_text(&mut rng, 256);
        assert_eq!(parse_bang_indexes(&s), parse_bang_indexes_iter(&s), "on {:?}", s);
    }
}

#[test]
fn chunked_and_scalar_placeholder_scans_agree() {
    let mut rng = Lcg(11);
    for _ in 0..4000 {
        let s = random_text(&mut rng, 256);
        assert_eq!(
            spans(parse_template_indexes(&s)),
            spans(iterative_parse_template_indexes(&s)),
            "on {:?}",
            s
        );
    }
}

#[test]
fn scans_agree_at_chunk_boundaries() {
    for len in [15usize, 16, 17, 31, 32, 33] {
        for at in 0..len {
            let mut bang = "a".repeat(len);
            bang.replace_range(at..at + 1, "!");
            if at > 0 {
                bang.replace_range(at - 1..at, " ");
            }
            assert_eq!(parse_bang_indexes(&bang), parse_bang_indexes_iter(&bang), "on {:?}", bang);
            if at + 7 <= len {
                let mut t = "x".repeat(len);
                t.replace_range(at..at + 7, "{{{s}}}");
                assert_eq!(
                    spans(parse_template_indexes(&t)),
                    spans(iterative_parse_template_indexes(&t)),
                    "on {:?}",
                    t
                );
                assert_eq!(spans(parse_template_indexes(&t)), Some([(at, at + 7), (0, 0)]));
            }
        }
    }
}
