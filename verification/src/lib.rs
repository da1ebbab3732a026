//! Raster-to-vector tracing.
//!
//! An image is reduced to a palette of its most frequent colours
//! ([`palette`]) and split into one layer for each of them ([`layers`]). The
//! silhouette of a layer ([`silhouette`]) is smoothed by the caller; the
//! edges of the smoothed silhouette ([`edges`]) are walked into contours
//! ([`contour`]), the contours are written as closed paths ([`pathtext`]),
//! and the paths are thinned out to a simplification level ([`simplify`]);
//! [`thinning`] shows that a traced path stays a path under it.
//! [`tracing`] puts these steps together on both sides of the smoothing.
//!
//! All contracts speak of the models in [`raster`]: an image is a grid of
//! cells, a text is a sequence of characters. [`number`] and [`digits`]
//! hold the exact decimal arithmetic of the simplification, and
//! [`data_url`] and [`convert`] what the conversions need around the
//! tracing.
pub mod contour;
pub mod convert;
pub mod data_url;
pub mod digits;
pub mod edges;
pub mod layers;
pub mod number;
pub mod palette;
pub mod pathtext;
pub mod raster;
pub mod silhouette;
pub mod simplify;
pub mod text;
pub mod thinning;
pub mod tracing;
