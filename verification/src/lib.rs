//! A collection of small, independent, verified building blocks. The largest
//! is [`react`], a spreadsheet-style engine of input and computed cells.

pub mod react;
pub mod sublist;
pub mod robot_simulator;
pub mod text;
pub mod circular_buffer;
pub mod clock;
pub mod dominoes;
pub mod paasio;
pub mod ratpack;
pub mod forth;
pub mod arith;
pub mod wordy;
pub mod grep;
pub mod poker;
pub mod ocr_numbers;
pub mod diamond;
pub mod largest_series_product;
pub mod pangram;
pub mod variable_length_quantity;
pub mod parallel_letter_frequency;
pub mod run_length_encoding;
pub mod triangle;
