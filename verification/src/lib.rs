//! Raster editing core: what an image editor decides and computes between a
//! file's bytes and a screen's pixels.
//!
//! Images, layers, masks, selections, strokes, brushes, channels, type and
//! save-back are plain values here. What runs on a device, decodes a codec's
//! bytes or works in floating point is handed in as a result or as a function;
//! the contracts then say what is asked of it and what is made of the answer.
//!
//! - Pixels: [`pixels`], [`scalar`], [`bridge`], [`grid`], [`orientation`],
//!   [`coverage`], [`mip`].
//! - Files in and out: [`source`], [`ingest`], [`cmyk`], [`display`],
//!   [`saveback`].
//! - Documents: [`layers`], [`blend`], [`composite`], [`fold`], [`session`].
//! - Edits: [`adjust`], [`fill`], [`stroke`], [`heal`], [`inpaint`],
//!   [`selection`], [`paths`], [`enclosure`],
//!   [`channels`].
//! - Brushes and type: [`brushes`], [`text`], [`typeset`].
//! - The editor's operations on a session: [`editing`], [`doors`], with
//!   [`errors`] and [`strings`].

pub mod adjust;
pub mod blend;
pub mod bridge;
pub mod brushes;
pub mod channels;
pub mod cmyk;
pub mod composite;
pub mod coverage;
pub mod display;
pub mod doors;
pub mod editing;
pub mod enclosure;
pub mod errors;
pub mod fill;
pub mod fold;
pub mod grid;
pub mod heal;
pub mod ingest;
pub mod inpaint;
pub mod layers;
pub mod mip;
pub mod orientation;
pub mod paths;
pub mod pixels;
pub mod saveback;
pub mod scalar;
pub mod selection;
pub mod session;
pub mod source;
pub mod strings;
pub mod stroke;
pub mod text;
pub mod typeset;
