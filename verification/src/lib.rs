//! Bridge between an immediate-mode GUI layer's platform-viewport callbacks
//! and a native windowing layer with a GPU presentation target per window.
//!
//! The GUI layer drives window lifecycle through synchronous callbacks, but
//! native windows may only be created or destroyed inside the host event
//! loop.  The [`proxy::Proxy`] reconciles the two timing models: callbacks
//! record commands and read a cache, and once per frame the host drains the
//! queue against the [`manager::Manager`] and refreshes the cache.

pub mod assoc;
pub mod focus_order;
pub mod geom;
pub mod image_data;
pub mod manager;
pub mod monitors;
pub mod outlet;
pub mod proxy;
