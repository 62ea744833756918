//! What to write for each outcome of the match engine.
//!
//! A resolved run is written in the colour of its score (see
//! [`crate::palette::color_of`]), line fragment by line fragment, the colour
//! being selected anew before each fragment. What is still buffered at the
//! end of the stream is written with the score zero.

use crate::engine::age_view;
use crate::lines::{contents, is_line_split, split_lines};
use crate::score::{score, score_denominator, score_numerator, Score};
use crate::window_searcher::SearchState;
use std::collections::VecDeque;
use vstd::prelude::*;

verus! {

/// A run that is ready to be written.
#[derive(Debug)]
pub struct Painted {
    /// The run, cut into line fragments, in order.
    pub lines: Vec<Vec<u8>>,
    /// The score of the run, which decides its colour.
    pub score: Score,
}

/// What to write after a step of the engine that reported `state`, for an
/// engine with a window of `window_size` bytes: nothing while the engine
/// buffers, and else the resolved run with its score. An empty run has no
/// fragments.
pub fn paint(state: SearchState, window_size: usize) -> (painted: Option<Painted>)
    requires
        window_size > 0,
    ensures
        match state {
            SearchState::Buffering => painted is None,
            SearchState::Flushed { buffer, age } => {
                &&& painted matches Some(p)
                &&& is_line_split(buffer@, contents(p.lines@))
                &&& p.score.numerator == score_numerator(age_view(age), window_size as nat)
                &&& p.score.denominator == score_denominator(
                    buffer@.len(),
                    age_view(age),
                    window_size as nat,
                )
                &&& p.score.wf()
            },
        },
{
    match state {
        SearchState::Buffering => None,
        SearchState::Flushed { buffer, age } => {
            let score = score(buffer.len(), age, window_size);
            let lines = split_lines(&buffer);
            Some(Painted { lines, score })
        },
    }
}

/// What to write at the end of the stream for the bytes `rest` that the
/// engine still held: they are shown with the score zero.
pub fn paint_rest(rest: VecDeque<u8>) -> (p: Painted)
    ensures
        is_line_split(rest@, contents(p.lines@)),
        p.score.numerator == 0,
        p.score.denominator == 1,
        p.score.wf(),
{
    let score = Score::zero();
    let lines = split_lines(&rest);
    Painted { lines, score }
}

} // verus!
