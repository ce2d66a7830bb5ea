//! A small engine for shared pixel-art canvases.
//!
//! A canvas is a rectangular grid of color cells addressed by `(x, y)`
//! coordinates; the collection of all canvases is the unit of persistence.
//! This crate holds the verified core: the canvas collection and its four
//! operations (create, delete, read content, patch pixels), the identifier
//! freshness rules, and the serialization of the collection document.
//! File and network transport live outside the crate.

pub mod canvas;
pub mod laws;
pub mod service;
pub mod store;

pub use canvas::Canvas;
pub use canvas::CanvasV;
pub use canvas::Canvases;
pub use canvas::GridV;
pub use canvas::Pixel;
pub use canvas::PixelV;
pub use canvas::Pixels;
pub use canvas::ReqCanvas;
pub use service::CanvasError;
pub use service::contains_id;
pub use service::create_canvas;
pub use service::create_canvas_with_ids;
pub use service::delete_canvas;
pub use service::fresh_id;
pub use service::get_canvas_content;
pub use service::update_canvas_content;
pub use store::StorageError;
pub use store::load_canvases;
pub use store::save_canvases;
pub use store::update_canvases;
