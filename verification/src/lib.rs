//! The logic of a terminal viewer for TensorBoard scalar logs, with its
//! behaviour stated in contracts and proved.
pub mod app;
pub mod app_laws;
pub mod bits;
pub mod chart_laws;
pub mod charts;
pub mod cli;
pub mod colors;
pub mod columns;
pub mod demo;
pub mod frame;
pub mod frame_laws;
pub mod history;
pub mod key_laws;
pub mod layout;
pub mod live;
pub mod messages;
pub mod names;
pub mod number_laws;
pub mod numbers;
pub mod paint;
pub mod picture;
pub mod plot;
pub mod roundtrip;
pub mod screen_laws;
pub mod series;
pub mod store;
pub mod store_laws;
pub mod tag_laws;
pub mod tags;
pub mod tailing;
pub mod text;
pub mod tfevents;
pub mod ui;
pub mod wire;
pub mod writer;
