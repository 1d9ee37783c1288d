//! Wave function collapse on a two-dimensional grid: a catalog of local
//! patterns is sampled from a bitmap, a directional adjacency table is derived
//! from it, and a solver fills a grid by observing, collapsing, propagating
//! and, on a contradiction, unwinding.

pub mod board;
pub mod generic_tiles;
pub mod grid;
pub mod image;
pub mod overlapping_model;
pub mod sampler;
pub mod tile_model;
pub mod utils;

use crate::image::{Bitmap, Image};
use crate::sampler::views;
use crate::utils::AdjacencyData;
use vstd::prelude::*;

verus! {

/// The sample cannot be cut into tiles of the requested side without a rest.
#[derive(Clone, Copy, Debug, PartialEq, Eq, Structural)]
pub struct InvalidSourceDimensions;

/// A catalog of patterns, as the solver sees it: it knows how many there are.
/// Painting one is left to the program that shows the grid.
pub trait Drawable {
    /// The number of patterns.
    spec fn count(&self) -> nat;

    /// The number of patterns.
    fn len(&self) -> (n: usize)
        ensures
            n == self.count(),
    ;
}

/// A way to turn a sample into patterns and into the rules of their
/// adjacency.
pub trait WfcPreprocessor {
    /// The catalog that the patterns are shown with.
    type Pattern: Drawable;

    /// The patterns that the sample gives, in the order of their ids; `None`
    /// where the sample is refused.
    spec fn patterns_of(&self, sample: Bitmap) -> Option<Seq<Bitmap>>;

    /// The images are such as `extract_images` returns them.
    spec fn accepts(&self, images: Seq<Image>) -> bool;

    /// The catalog shows the given patterns, each under its id.
    spec fn shows(&self, catalog: &Self::Pattern, patterns: Seq<Bitmap>) -> bool;

    /// Pattern `a` admits pattern `b` as its neighbour in direction `dir`.
    spec fn adjacent(&self, a: Bitmap, b: Bitmap, dir: int) -> bool;

    /// The patterns of the sample, in the order of their ids.
    fn extract_images(&self, image: &Image) -> (out: Result<Vec<Image>, InvalidSourceDimensions>)
        requires
            image.wf(),
        ensures
            out is Ok <==> self.patterns_of(image@) is Some,
            out matches Ok(images) ==> self.patterns_of(image@) == Some(views(images@))
                && self.accepts(images@),
    ;

    /// The catalog of the patterns.
    fn create_patterns(&self, images: &Vec<Image>) -> (patterns: Self::Pattern)
        requires
            self.accepts(images@),
        ensures
            patterns.count() == images@.len(),
            self.shows(&patterns, views(images@)),
    ;

    /// The adjacency table of the patterns, each row in increasing order.
    fn create_adjacency_rules(&self, images: &Vec<Image>) -> (table: AdjacencyData)
        requires
            self.accepts(images@),
        ensures
            table.wf(),
            table.ascending(),
            table.count() == images@.len(),
            forall|a: int, dir: int, b: int|
                0 <= a < images@.len() && 0 <= dir < 4 && 0 <= b < images@.len() ==> (
                #[trigger] table.admits(a, dir, b) <==> self.adjacent(
                    images@[a]@,
                    images@[b]@,
                    dir,
                )),
    ;
}

/// `table` holds the rules of adjacency that `processor` gives to
/// `patterns`.
pub open spec fn rules_of<P: WfcPreprocessor>(
    processor: &P,
    patterns: Seq<Bitmap>,
    table: &AdjacencyData,
) -> bool {
    &&& table.wf()
    &&& table.ascending()
    &&& table.count() == patterns.len()
    &&& forall|a: int, dir: int, b: int|
        0 <= a < patterns.len() && 0 <= dir < 4 && 0 <= b < patterns.len() ==> (
        #[trigger] table.admits(a, dir, b) <==> processor.adjacent(patterns[a], patterns[b], dir))
}

/// Builds the catalog and the adjacency table of a sample; a sample that the
/// builder refuses gives neither.
pub fn process<P: WfcPreprocessor>(processor: &P, image: &Image) -> (out: Result<
    (P::Pattern, AdjacencyData),
    InvalidSourceDimensions,
>)
    requires
        image.wf(),
    ensures
        out is Ok <==> processor.patterns_of(image@) is Some,
        out matches Ok(built) ==> built.0.count() == processor.patterns_of(image@).unwrap().len()
            && processor.shows(&built.0, processor.patterns_of(image@).unwrap()) && rules_of(
            processor,
            processor.patterns_of(image@).unwrap(),
            &built.1,
        ),
{
    match processor.extract_images(image) {
        Err(e) => Err(e),
        Ok(images) => {
            let patterns = processor.create_patterns(&images);
            let adjacency_rules = processor.create_adjacency_rules(&images);
            proof {
                let found = views(images@);
                assert forall|a: int, dir: int, b: int|
                    0 <= a < found.len() && 0 <= dir < 4 && 0 <= b < found.len() implies (
                #[trigger] adjacency_rules.admits(a, dir, b) <==> processor.adjacent(
                    found[a],
                    found[b],
                    dir,
                )) by {
                    assert(found[a] == images@[a]@ && found[b] == images@[b]@);
                }
            }
            Ok((patterns, adjacency_rules))
        },
    }
}

} // verus!
