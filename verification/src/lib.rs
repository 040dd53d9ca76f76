use vstd::prelude::*;

pub mod text;
pub mod sorting;
pub mod helpers;
pub mod model;
pub mod lookup;
pub mod export;
pub mod reports;
pub mod availability;
pub mod slots;
pub mod generation;
pub mod theme;
pub mod csv_import;
pub mod analysis;
pub mod tabs;
pub mod timeline;
pub mod print_report;
pub mod progress;
pub mod demo;

verus! {
}
