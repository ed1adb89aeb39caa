//! The core of a timeline audio editor.
//!
//! Clips of audio lie on the lanes of a timeline. They are added at the playhead, dragged about,
//! partly selected, cut, put through effects, played, and mixed down.
//!
//! `num` holds numbers by their bits and `arith` says how they are computed. `clip` is a clip,
//! `effects` and `edit` are what can be done to its samples. `timeline` is the state of the editor,
//! `mouse` what the mouse and the buttons do to it, `playback` what is heard of it and `scene` what
//! is drawn of it. `welcome` is the window that the program opens with. `laws` states what holds of
//! all this together, `outcomes` that nothing is left open but the rounding of the arithmetic, and
//! `exact` what values are worth and what it is to round to the nearest value.
//!
//! Further laws say what the operations mean in seconds, frames, pixels and levels: `meaning` of
//! playing and mixing, `places` of lanes and of ratios in a clip, `parts` of selections, cuts and
//! trims, `samples` and `levels` of the effects, `gestures` of the mouse and the clock, and
//! `drawing` of what is drawn.
pub mod arith;
pub mod clip;
pub mod drawing;
pub mod edit;
pub mod effects;
pub mod exact;
pub mod gestures;
pub mod laws;
pub mod levels;
pub mod meaning;
pub mod mouse;
pub mod num;
pub mod outcomes;
pub mod parts;
pub mod places;
pub mod playback;
pub mod samples;
pub mod scene;
pub mod timeline;
pub mod welcome;
