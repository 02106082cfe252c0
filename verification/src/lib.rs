//! Small-decision inference: requests, rendering, answers, batching and planning.

pub mod agent;
pub mod answer;
pub mod args;
pub mod batch;
pub mod cache;
pub mod command;
pub mod compact;
pub mod convert;
pub mod cpu;
pub mod cuda;
pub mod decide;
pub mod email;
pub mod engine;
pub mod graph;
pub mod hub;
pub mod ieee;
pub mod json;
pub mod order;
pub mod predict;
pub mod pull;
pub mod pyjson;
pub mod render;
pub mod request;
pub mod round;
pub mod session;
pub mod settings;
pub mod split;
pub mod sum;
pub mod text;
pub mod times;
