//! Analysis of keyboard firmware keymaps: the layer-table scanner, the custom-keycode
//! scanner, the byte-offset / UTF-16 position mapper and the diagnostic validator, with
//! the lookups behind hover and completion.

pub mod text;
pub mod layers;
pub mod custom;
pub mod position;
pub mod knowledge;
pub mod document;
pub mod validate;
pub mod info_json;
pub mod hover;
pub mod completion;
