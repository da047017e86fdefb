//! Verified core of a small deterministic web-page pipeline.

use vstd::prelude::*;

pub mod text;
pub mod dom;
pub mod error;
pub mod html;
pub mod extract;
pub mod js;
pub mod css;
pub mod net;
pub mod layout;
pub mod image;
pub mod render;
pub mod script;
pub mod security;
pub mod response;
pub mod stylesheet;
pub mod weburl;
