//! The AV1 bitstream, restricted to the still-picture subset.
pub mod bits;
pub mod codes;
pub mod symbol;
pub mod intervals;
pub mod obu;
pub mod seq;
pub mod frame;
pub mod headers;
pub mod still;
pub mod butterfly;
pub mod waves;
pub mod transform;
pub mod cdf;
pub mod coeff;
pub mod scan;
pub mod sums;
pub mod halves;
pub mod sixteen;
pub mod thirty_two;
pub mod sines;
pub mod passes;
pub mod tx_size;
pub mod transform_type;
pub mod shapes;
pub mod plane;
pub mod palette;
pub mod predict;
pub mod direction;
pub mod angles;
pub mod deblock;
pub mod boundaries;
pub mod modes;
pub mod units;
pub mod block;
pub mod colours;
pub mod choices;
pub mod edges;
pub mod surroundings;
pub mod tile;
pub mod tiling;
