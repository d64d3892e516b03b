//! Reading and using the binary dictionaries: the file layout, the finite
//! state automata that index them, the encoded interpretations, the
//! segmentation rules, and the analyzer and generator built on them.
pub mod analyzer;
pub mod cache;
pub mod case;
pub mod data;
pub mod fsa;
pub mod generator;
pub mod graph;
pub mod interps;
pub mod lexicon;
pub mod read;
pub mod segmentation;

use vstd::prelude::*;

verus! {

pub const MAGIC_NUMBER: u32 = 0x8fc2bc1b;
pub const VERSION_NUM: u8 = 21;
pub const VERSION_NUM_OFFSET: usize = 4;
pub const IMPLEMENTATION_NUM_OFFSET: usize = 5;
pub const FSA_DATA_SIZE_OFFSET: usize = 6;
pub const FSA_DATA_OFFSET: usize = 10;
pub const SIMPLE_ACCEPTING_FLAG: u8 = 128;
pub const SIMPLE_TRANSITIONS_NUM_MASK: u8 = 127;
pub const SIMPLE_TRANSITION_SIZE: usize = 4;
pub const SIMPLE_TRANSDUCER_TRANSITION_SIZE: usize = 5;
pub const V1_INITIAL_STATE_OFFSET: usize = 257;
pub const V1_ACCEPTING_FLAG: u8 = 128;
pub const V1_TRANSITIONS_NUM_MASK: u8 = 127;
pub const V1_OFFSET_SIZE_MASK: u8 = 3;
pub const V2_HAS_REMAINING_FLAG: u8 = 128;
pub const V2_ACCEPTING_FLAG: u8 = 64;
pub const V2_LAST_FLAG: u8 = 32;
pub const V2_OFFSET_MASK: u8 = 0x7f;
pub const V2_FIRST_BYTE_OFFSET_MASK: u8 = 0x1f;
pub const ORTH_ONLY_LOWER: u8 = 128;
pub const ORTH_ONLY_TITLE: u8 = 64;
pub const LEMMA_ONLY_LOWER: u8 = 32;
pub const LEMMA_ONLY_TITLE: u8 = 16;
pub const PREFIX_CUT_MASK: u8 = 15;
pub const CASE_PATTERN_ONLY_LOWER: u8 = 0;
pub const CASE_PATTERN_UPPER_PREFIX: u8 = 1;
pub const CASE_PATTERN_MIXED: u8 = 2;
pub const SEGRULES_ACCEPTING_FLAG: u8 = 1;
pub const SEGRULES_WEAK_FLAG: u8 = 2;
pub const SEGRULES_TRANSITION_SIZE: usize = 4;

} // verus!
