//! The verified core of a terminal spectrogram.

pub mod analysis;
pub mod arith;
pub mod audio;
pub mod axis;
pub mod bounds;
pub mod calibration;
pub mod cents;
pub mod color;
pub mod combs;
pub mod contrast;
pub mod controls;
pub mod convert;
pub mod curves;
pub mod detection;
pub mod display;
pub mod errors;
pub mod formulas;
pub mod found;
pub mod frames;
pub mod hues;
pub mod joined;
pub mod journey;
pub mod keys;
pub mod labels;
pub mod lights;
pub mod means;
pub mod missing;
pub mod mixing;
pub mod notes;
pub mod nudges;
pub mod numerals;
pub mod octaves;
pub mod order;
pub mod paint;
pub mod partials;
pub mod pass;
pub mod pitch;
pub mod places;
pub mod rainbow;
pub mod red;
pub mod render;
pub mod rounding;
pub mod ruler;
pub mod shades;
pub mod sine;
pub mod single;
pub mod smoothing;
pub mod state;
pub mod stats;
pub mod steps;
pub mod streams;
pub mod table;
pub mod text;
pub mod tracker;
pub mod values;
pub mod vertex;
pub mod view;
pub mod whereabouts;
pub mod written;
