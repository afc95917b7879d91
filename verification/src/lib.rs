//! Listings of zip and rar archives as directory trees, and the browser
//! that walks them: splitting member paths into components, filing each
//! member under its directories, and the state of the window that shows a
//! listing, one directory at a time.

pub mod paths;
pub mod text;

pub mod model;
pub mod tree;

pub mod zipfile;
pub mod internal;
pub mod rzip;

pub mod cli;
pub mod events;
pub mod gui;
