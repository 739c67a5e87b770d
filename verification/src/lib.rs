pub mod text;
pub mod permutation;
pub mod parameter_list;
pub mod util;
pub mod mhn_symmetry;
pub mod share;
pub mod grid;
pub mod generator;
pub mod transitioner;
pub mod jml;
pub mod mhn_jml;
pub mod animation_prefs;
pub mod animation;
pub mod ladder;
pub mod library;
pub mod mutator;
pub mod prop;
pub mod siteswap;
pub mod layout;
pub mod mhn_throw;
pub mod mhn_matrix;
pub mod hand_siteswap;
