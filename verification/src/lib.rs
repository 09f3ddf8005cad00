//! Circular fiducial tags: the format, its codes, and the decisions of a detector.
pub mod border;
pub mod capacity_laws;
pub mod choice_laws;
pub mod codec;
pub mod codec_laws;
pub mod contour_laws;
pub mod contour_parents;
pub mod contour_regions;
pub mod contour_walks;
pub mod contours;
pub mod detector;
pub mod digits;
pub mod edges;
pub mod erasure_laws;
pub mod expect;
pub mod field;
pub mod filter_laws;
pub mod frame;
pub mod frame_laws;
pub mod frame_vectors;
pub mod gf16;
pub mod gf256;
pub mod grid_vectors;
pub mod header;
pub mod image;
pub mod image_laws;
pub mod json;
pub mod linear;
pub mod marker;
pub mod mode_vectors;
pub mod pairing;
pub mod payload;
pub mod payload_laws;
pub mod picture;
pub mod poly;
pub mod regions;
pub mod registry;
pub mod rs;
pub mod rs_laws;
pub mod scenario;
pub mod scenario_laws;
pub mod select;
pub mod seqs;
pub mod stage_vectors;
pub mod sync_laws;
pub mod text;
pub mod text_laws;
pub mod tracing;
pub mod vector_laws;
pub mod vectors;
