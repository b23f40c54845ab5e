//! The scene: what is loaded and how it is to be drawn, as far as the logic
//! reads it.  Vertex coordinates and the facet expansion amount are floating
//! point and are kept by the caller; the scene holds the sign of the amount,
//! which is all the loading logic looks at.
use vstd::prelude::*;
use vstd::string::StringSliceAdditionalSpecFns;

use crate::text::{
    parse_i32_in, parse_isize_in, parse_signed, parse_u32_in, parse_unsigned, parse_usize_in,
    split_lines, text_lines,
};

verus! {

/// The sign of the facet expansion amount: zero turns expansion off.
#[derive(Clone, Copy, PartialEq, Eq, Debug, Structural)]
pub enum ExpansionSign {
    Zero,
    Positive,
    /// Negative, or not a number: neither zero nor above it.
    Negative,
}

/// An RGBA edge colour, one byte per channel.
#[derive(Clone, Copy, PartialEq, Eq, Debug, Structural)]
pub struct EdgeColor {
    pub r: u8,
    pub g: u8,
    pub b: u8,
    pub a: u8,
}

pub open spec fn white_spec() -> EdgeColor {
    EdgeColor { r: 255, g: 255, b: 255, a: 255 }
}

/// Opaque white, the colour of every edge that is not part of an expanded
/// facet.
#[verifier::when_used_as_spec(white_spec)]
pub fn white() -> (c: EdgeColor)
    ensures
        c == white_spec(),
{
    EdgeColor { r: 255, g: 255, b: 255, a: 255 }
}

/// `count` copies of white.
pub open spec fn whites(count: nat) -> Seq<EdgeColor> {
    Seq::new(count, |i: int| white_spec())
}

pub struct Scene {
    /// Width and height, in pixels, of the rendered animation frames.
    pub resolution: u32,
    /// Number of frames in the animation.
    pub frame_count: i32,
    pub facet_expansion: ExpansionSign,
    /// Rank of the elements to expand.  A value above `usize::MAX / 2` is a
    /// negative number in two's complement: a rank counted down from the
    /// polytope's rank.
    pub facet_expansion_rank: usize,
    /// Vertices get at least this many coordinates.
    pub min_dimension: usize,
    /// Dimension of the loaded polytope (at least `min_dimension`).
    pub dimension: usize,
    /// The edges to draw, as pairs of vertex indices.
    pub edges: Vec<usize>,
    pub edge_colors: Vec<EdgeColor>,
}

impl Scene {
    /// Forgets the loaded edges.  (Vertex positions are kept by the caller,
    /// which clears them too.)
    pub fn clear_polytope(&mut self)
        ensures
            final(self).edges@ == Seq::<usize>::empty(),
            final(self).edge_colors@ == old(self).edge_colors@,
            final(self).resolution == old(self).resolution,
            final(self).frame_count == old(self).frame_count,
            final(self).facet_expansion == old(self).facet_expansion,
            final(self).facet_expansion_rank == old(self).facet_expansion_rank,
            final(self).min_dimension == old(self).min_dimension,
            final(self).dimension == old(self).dimension,
    {
        self.edges.clear();
    }
}

/// The expansion rank as stored from a signed setting: a negative setting
/// becomes its two's complement, as `isize::cast_unsigned` does.
pub open spec fn stored_rank(setting: int) -> int {
    if setting >= 0 {
        setting
    } else {
        setting + usize::MAX + 1
    }
}

/// Stores a signed expansion rank setting (see `stored_rank`).
pub fn rank_from_setting(setting: isize) -> (r: usize)
    ensures
        r as int == stored_rank(setting as int),
{
    if setting >= 0 {
        setting as usize
    } else {
        usize::MAX - ((-(setting + 1)) as usize)
    }
}

/// The expansion rank once a polytope of rank `rank` is known: a negative
/// setting counts down from `rank` (`-1` picks the facets), and the result is
/// kept between 2 and `rank - 1` (2 when `rank` is below 3).
pub open spec fn normalized_expansion_rank(stored: nat, rank: nat) -> nat {
    let relative: int = if stored > usize::MAX / 2 {
        let back = usize::MAX - stored + 1;
        if back <= rank {
            rank - back
        } else {
            0
        }
    } else {
        stored as int
    };
    let capped: int = if relative > rank - 1 {
        rank - 1
    } else {
        relative
    };
    if capped < 2 {
        2
    } else {
        capped as nat
    }
}

/// See `normalized_expansion_rank`.
pub fn normalize_expansion_rank(stored: usize, rank: usize) -> (r: usize)
    requires
        rank >= 1,
    ensures
        r as nat == normalized_expansion_rank(stored as nat, rank as nat),
{
    let mut v = stored;
    if stored > usize::MAX / 2 {
        let back = usize::MAX - stored + 1;
        v = if back <= rank {
            rank - back
        } else {
            0
        };
    }
    if v > rank - 1 {
        v = rank - 1;
    }
    if v < 2 {
        v = 2;
    }
    v
}

impl Scene {
    /// A scene with nothing loaded yet, from the setup values.  The expansion
    /// rank setting is stored as `rank_from_setting` stores it.
    pub fn from_config(
        resolution: u32,
        frame_count: i32,
        min_dimension: usize,
        facet_expansion: ExpansionSign,
        facet_expansion_rank: isize,
    ) -> (scene: Scene)
        ensures
            scene.resolution == resolution,
            scene.frame_count == frame_count,
            scene.min_dimension == min_dimension,
            scene.facet_expansion == facet_expansion,
            scene.facet_expansion_rank as int == stored_rank(facet_expansion_rank as int),
            scene.dimension == 0,
            scene.edges@ == Seq::<usize>::empty(),
            scene.edge_colors@ == Seq::<EdgeColor>::empty(),
    {
        Scene {
            resolution,
            frame_count,
            facet_expansion,
            facet_expansion_rank: rank_from_setting(facet_expansion_rank),
            min_dimension,
            dimension: 0,
            edges: Vec::new(),
            edge_colors: Vec::new(),
        }
    }

    /// Expands elements one rank higher, but not beyond the facets.
    pub fn raise_expansion_rank(&mut self)
        requires
            old(self).facet_expansion_rank < usize::MAX,
            old(self).dimension >= 1,
        ensures
            final(self).facet_expansion_rank == if old(self).facet_expansion_rank + 1 > old(
                self,
            ).dimension - 1 {
                (old(self).dimension - 1) as usize
            } else {
                (old(self).facet_expansion_rank + 1) as usize
            },
            final(self).edges@ == old(self).edges@,
            final(self).edge_colors@ == old(self).edge_colors@,
            final(self).dimension == old(self).dimension,
            final(self).facet_expansion == old(self).facet_expansion,
            final(self).min_dimension == old(self).min_dimension,
            final(self).resolution == old(self).resolution,
            final(self).frame_count == old(self).frame_count,
    {
        self.facet_expansion_rank = self.facet_expansion_rank + 1;
        if self.facet_expansion_rank > self.dimension - 1 {
            self.facet_expansion_rank = self.dimension - 1;
        }
    }

    /// Expands elements one rank lower, but not below the faces.
    pub fn lower_expansion_rank(&mut self)
        requires
            old(self).facet_expansion_rank >= 1,
        ensures
            final(self).facet_expansion_rank == if old(self).facet_expansion_rank - 1 < 2 {
                2
            } else {
                (old(self).facet_expansion_rank - 1) as usize
            },
            final(self).edges@ == old(self).edges@,
            final(self).edge_colors@ == old(self).edge_colors@,
            final(self).dimension == old(self).dimension,
            final(self).facet_expansion == old(self).facet_expansion,
            final(self).min_dimension == old(self).min_dimension,
            final(self).resolution == old(self).resolution,
            final(self).frame_count == old(self).frame_count,
    {
        self.facet_expansion_rank = self.facet_expansion_rank - 1;
        if self.facet_expansion_rank < 2 {
            self.facet_expansion_rank = 2;
        }
    }
}

/// Animation settings, with the defaults used when the setup leaves them
/// out.
pub struct AnimationConfig {
    pub resolution: u32,
    pub frame_count: i32,
}

impl Default for AnimationConfig {
    fn default() -> (config: AnimationConfig)
        ensures
            config.resolution == 1200,
            config.frame_count == 80,
    {
        AnimationConfig { resolution: 1200, frame_count: 80 }
    }
}

/// The values of a plain-text setup file, one per line: the polytope folder,
/// the polytope to load, the resolution, the frame count, the minimum
/// dimension, the facet expansion amount and the rank of the elements to
/// expand.  Paths and the (floating point) amount are given as byte spans.
#[derive(Clone, Copy, Debug)]
pub struct SetupLines {
    pub polytopes_folder: (usize, usize),
    pub polytope_path: (usize, usize),
    pub resolution: u32,
    pub frame_count: i32,
    pub min_dimension: usize,
    pub facet_expansion: (usize, usize),
    pub facet_expansion_rank: isize,
}

/// Why a plain-text setup file could not be read.
#[derive(Clone, Copy, PartialEq, Eq, Debug, Structural)]
pub enum SetupError {
    /// Fewer than seven lines.
    MissingLines,
    /// The third line is not a `u32`.
    BadResolution,
    /// The fourth line is not an `i32`.
    BadFrameCount,
    /// The fifth line is not a `usize`.
    BadMinDimension,
    /// The seventh line is not an `isize`.
    BadExpansionRank,
}

/// The bytes of line `k` of `c`.
pub open spec fn line_text(c: Seq<u8>, k: int) -> Seq<u8> {
    let l = text_lines(c)[k];
    c.subrange(l.0 as int, l.1 as int)
}

/// What reading the setup file `c` gives.
pub open spec fn setup_spec(c: Seq<u8>) -> Result<SetupLines, SetupError> {
    let lines = text_lines(c);
    if lines.len() < 7 {
        Err(SetupError::MissingLines)
    } else {
        match parse_unsigned(line_text(c, 2), u32::MAX as nat) {
            None => Err(SetupError::BadResolution),
            Some(resolution) => match parse_signed(line_text(c, 3), i32::MIN as int, i32::MAX as int) {
                None => Err(SetupError::BadFrameCount),
                Some(frame_count) => match parse_unsigned(line_text(c, 4), usize::MAX as nat) {
                    None => Err(SetupError::BadMinDimension),
                    Some(min_dimension) => match parse_signed(
                        line_text(c, 6),
                        isize::MIN as int,
                        isize::MAX as int,
                    ) {
                        None => Err(SetupError::BadExpansionRank),
                        Some(rank) => Ok(
                            SetupLines {
                                polytopes_folder: lines[0],
                                polytope_path: lines[1],
                                resolution: resolution as u32,
                                frame_count: frame_count as i32,
                                min_dimension: min_dimension as usize,
                                facet_expansion: lines[5],
                                facet_expansion_rank: rank as isize,
                            },
                        ),
                    },
                },
            },
        }
    }
}

/// Reads a plain-text setup file (see `setup_spec`).
pub fn parse_setup(text: &str) -> (r: Result<SetupLines, SetupError>)
    ensures
        r == setup_spec(text.spec_bytes()),
{
    let bytes = text.as_bytes();
    let lines = split_lines(bytes);
    if lines.len() < 7 {
        return Err(SetupError::MissingLines);
    }
    let l2 = lines[2];
    let l3 = lines[3];
    let l4 = lines[4];
    let l6 = lines[6];
    assert(l2.0 <= l2.1 <= bytes@.len());
    assert(l3.0 <= l3.1 <= bytes@.len());
    assert(l4.0 <= l4.1 <= bytes@.len());
    assert(l6.0 <= l6.1 <= bytes@.len());
    let resolution = match parse_u32_in(bytes, l2.0, l2.1) {
        Some(v) => v,
        None => {
            return Err(SetupError::BadResolution);
        },
    };
    let frame_count = match parse_i32_in(bytes, l3.0, l3.1) {
        Some(v) => v,
        None => {
            return Err(SetupError::BadFrameCount);
        },
    };
    let min_dimension = match parse_usize_in(bytes, l4.0, l4.1) {
        Some(v) => v,
        None => {
            return Err(SetupError::BadMinDimension);
        },
    };
    let rank = match parse_isize_in(bytes, l6.0, l6.1) {
        Some(v) => v,
        None => {
            return Err(SetupError::BadExpansionRank);
        },
    };
    Ok(
        SetupLines {
            polytopes_folder: lines[0],
            polytope_path: lines[1],
            resolution,
            frame_count,
            min_dimension,
            facet_expansion: lines[5],
            facet_expansion_rank: rank,
        },
    )
}

/// Normalizing the expansion rank twice changes nothing more: the reader
/// normalizes it again on every line of data, to the same value.  (For a
/// rank above `usize::MAX / 2 + 1` a normalized rank can itself read as a
/// negative setting, so there it may move again.)
pub proof fn lemma_normalization_idempotent(stored: nat, rank: nat)
    requires
        1 <= rank <= usize::MAX / 2 + 1,
    ensures
        normalized_expansion_rank(normalized_expansion_rank(stored, rank), rank)
            == normalized_expansion_rank(stored, rank),
{
}

/// A negative setting `-k` counts down from the polytope's rank: `-1` gives
/// the facets (rank - 1), `-2` the ridges (rank - 2), as long as that is a
/// rank of 2 or more.
pub proof fn lemma_negative_setting_is_relative(k: int, rank: nat)
    requires
        1 <= k <= isize::MAX + 1,
        1 <= rank <= usize::MAX,
        rank - k >= 2,
    ensures
        normalized_expansion_rank(stored_rank(-k) as nat, rank) == rank - k,
{
}

/// A setting of 0 or more is taken as the rank itself, kept between 2 and
/// rank - 1.
pub proof fn lemma_positive_setting_is_absolute(k: int, rank: nat)
    requires
        0 <= k <= isize::MAX,
        3 <= rank <= usize::MAX,
    ensures
        normalized_expansion_rank(stored_rank(k) as nat, rank) == if k < 2 {
            2
        } else if k > rank - 1 {
            rank - 1
        } else {
            k
        },
{
}

} // verus!
