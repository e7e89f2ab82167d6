//! Verified core of a headless HTML renderer that speaks the Chrome DevTools
//! Protocol: text rewriting, resource decoding, stream bookkeeping, pixel
//! arithmetic and the paint-order and font-table bookkeeping of pagination.

pub mod codec;
pub mod fonts;
pub mod health;
pub mod ir;
pub mod layouts;
pub mod lifecycle;
pub mod pixels;
pub mod registry;
pub mod resource;
pub mod session;
pub mod streams;
pub mod svg;
pub mod text;

