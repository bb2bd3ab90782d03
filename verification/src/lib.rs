//! Escape-time fractal rendering on exact fixed-point arithmetic.
//!
//! Every coordinate of the complex plane is a signed integer counting units
//! of 2^-30, so each result below is a function of its inputs alone, stated
//! over mathematical integers and proved.
//!
//! - [`camera`] maps pixels to points of the plane and back;
//! - [`fractal`] evaluates escape times of the Mandelbrot set and of a Julia set;
//! - [`plotter`] evaluates a function over a grid with several workers;
//! - [`buddha`] samples random seeds and counts the points of their orbits;
//! - [`histogram`] holds the counts and normalises them to display levels;
//! - [`gradient`] maps a number in [0, 1] to a colour;
//! - [`render`] puts these together into images.

pub mod error;
pub mod fixed;
pub mod complex;
pub mod fractal;
pub mod camera;
pub mod grid;
pub mod equalize;
pub mod histogram;
pub mod gradient;
pub mod buddha;
pub mod parallel;
pub mod plotter;
pub mod image;
pub mod render;
