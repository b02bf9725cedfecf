//! Baseball forecasting: schedule parsing, chronological features, time-ordered
//! validation plans and the live panel, all as verified code over plain values.

pub mod backtest;
pub mod big;
pub mod chronology;
pub mod cli;
pub mod columns;
pub mod dataset;
pub mod display;
pub mod features;
pub mod forward;
pub mod grid;
pub mod json;
pub mod live;
pub mod mlb;
pub mod node;
pub mod numbers;
pub mod order;
pub mod outside;
pub mod panel;
pub mod reading;
pub mod single;
pub mod stats;
pub mod text;
pub mod training;
pub mod ui;
pub mod views;
