use compress_highlight::paint::{paint, paint_rest, Painted};
use compress_highlight::score::{score, Score};
use compress_highlight::window_searcher::{SearchState, WindowSearcher};
use std::collections::VecDeque;

/// Runs the whole pipeline over `input` and returns what would be written.
fn print_comp(input: &[u8], window_size: usize) -> Vec<Painted> {
    assert!(window_size > 0);
    let mut searcher = WindowSearcher::new(window_size);
    let mut out = Vec::new();
    for &byte in input {
        if let Some(painted) = paint(searcher.search(byte), window_size) {
            out.push(painted);
        }
    }
    out.push(paint_rest(searcher.flush()));
    out
}

fn written(out: &[Painted]) -> Vec<u8> {
    out.iter().flat_map(|p| p.lines.concat()).collect()
}

fn check_fragments(out: &[Painted]) {
    for painted in out {
        for (i, line) in painted.lines.iter().enumerate() {
            assert!(!line.is_empty());
            let body = &line[..line.len() - 1];
            assert!(!body.contains(&b'\n'));
            if i + 1 < painted.lines.len() {
                assert_eq!(line.last(), Some(&b'\n'));
            }
        }
        assert!(painted.score.denominator > 0);
        assert!(painted.score.numerator <= painted.score.denominator);
    }
}

#[test]
fn test_print_comp() {
    let input = b"[Mon Mar 1 09:19:57 CET 2021]path: 
[Mon Mar 1 09:19:57 CET 2021]result of plugin in system Library: 0
[Mon Mar 1 09:19:57 CET 2021]result of plugin in home: 0
[Mon Mar 1 09:20:01 CET 2021] start new app: /Applications/app.app";
    let out = print_comp(input, 1024);
    assert_eq!(written(&out), input);
    check_fragments(&out);
}

#[test]
fn test_print_comp2() {
    let input = b"ab
ab
ab
ab
";
    let out = print_comp(input, 1024);
    assert_eq!(written(&out), input);
    check_fragments(&out);
}

#[test]
fn buffering_paints_nothing() {
    assert!(paint(SearchState::Buffering, 4).is_none());
}

#[test]
fn a_run_is_painted_with_its_score() {
    let state = SearchState::Flushed {
        buffer: VecDeque::from(*b"ab\ncd"),
        age: Some(1),
    };
    let painted = paint(state, 4).unwrap();
    assert_eq!(painted.lines, vec![b"ab\n".to_vec(), b"cd".to_vec()]);
    assert_eq!(painted.score, score(5, Some(1), 4));
    assert_eq!(
        painted.score,
        Score {
            numerator: 3,
            denominator: 20
        }
    );
}

#[test]
fn the_empty_run_has_no_fragments() {
    let state = SearchState::Flushed {
        buffer: VecDeque::new(),
        age: None,
    };
    let painted = paint(state, 4).unwrap();
    assert!(painted.lines.is_empty());
}

#[test]
fn the_rest_is_painted_with_score_zero() {
    let painted = paint_rest(VecDeque::from(*b"x\ny"));
    assert_eq!(painted.lines, vec![b"x\n".to_vec(), b"y".to_vec()]);
    assert_eq!(painted.score, Score::zero());
}

#[test]
fn the_pipeline_on_the_repeated_lines() {
    let out = print_comp(b"ab\nab\nab\nab\n", 1024);
    let runs: Vec<Vec<u8>> = out.iter().map(|p| p.lines.concat()).collect();
    assert_eq!(
        runs,
        vec![
            b"".to_vec(),
            b"a".to_vec(),
            b"b".to_vec(),
            b"\n".to_vec(),
            b"ab\n".to_vec(),
            b"ab\nab\n".to_vec(),
        ]
    );
    // The last two lines were still buffered when the stream ended.
    assert_eq!(out[5].lines, vec![b"ab\n".to_vec(), b"ab\n".to_vec()]);
    assert_eq!(out[5].score, Score::zero());
    assert_eq!(out[4].score, score(3, Some(0), 1024));
}
