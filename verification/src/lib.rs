//! A verified video editing library: the project model and its undoable
//! actions, the timeline operations, and the planning of exports and previews.

pub mod action;
pub mod calls;
pub mod captions;
pub mod choosing;
pub mod crossing;
pub mod decimal;
pub mod denoise;
pub mod doing;
pub mod edl;
pub mod error;
pub mod exact;
pub mod export;
pub mod float;
pub mod fonts;
pub mod frames;
pub mod framing;
pub mod graph;
pub mod hearing;
pub mod history;
pub mod ident;
pub mod keyframe;
pub mod laws;
pub mod media;
pub mod mixing;
pub mod model;
pub mod ops;
pub mod overlays;
pub mod pacing;
pub mod packs;
pub mod paths;
pub mod pieces;
pub mod playing;
pub mod preview;
pub mod ranges;
pub mod reading;
pub mod render;
pub mod running;
pub mod seqs;
pub mod shaping;
pub mod showing;
pub mod silence;
pub mod sound;
pub mod spanning;
pub mod speeding;
pub mod staying;
pub mod stock;
pub mod store;
pub mod stretch;
pub mod strmap;
pub mod text;
pub mod time;
pub mod titling;
pub mod transitions;
pub mod tts;
pub mod undoing;
pub mod validate;
pub mod wave;
