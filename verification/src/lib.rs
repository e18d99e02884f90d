pub mod action;
pub mod chain;
pub mod channel;
pub mod chord;
pub mod command;
pub mod config;
pub mod convolve;
pub mod delta;
pub mod desk;
pub mod dispatcher;
pub mod doc;
pub mod dsp;
pub mod dynamics;
pub mod edit;
pub mod equalizer;
pub mod float;
pub mod flow;
pub mod headroom;
pub mod hotkeys;
pub mod icons;
pub mod levels;
pub mod lifecycle;
pub mod meter;
pub mod mirror;
pub mod mixer;
pub mod model;
pub mod numbers;
pub mod overlap;
pub mod passage;
pub mod paths;
pub mod peaks;
pub mod plan;
pub mod profiles;
pub mod ramp;
pub mod resample;
pub mod response;
pub mod rules;
pub mod sample;
pub mod sessions;
pub mod settings;
pub mod shell;
pub mod signal;
pub mod sink;
pub mod span;
pub mod spatial;
pub mod stages;
pub mod store;
pub mod text;
pub mod theme;
pub mod tick;
pub mod topology;
pub mod tray;
pub mod tree;
pub mod watch;
