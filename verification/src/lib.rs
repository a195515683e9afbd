//! Mock hardware peripherals for fuzzing device drivers.
//!
//! A driver under test talks to peripherals: pins, buses, converters. This
//! crate supplies peripherals whose every result, failures included, is
//! decoded from the bytes of one fuzz input, so that the same input always
//! drives the driver the same way.
//!
//! # How a run is wired up
//!
//! One [`shared_data::FuzzData`] is made from the input of the run, and a
//! clone of it is given to every peripheral that the driver needs. The
//! clones share one read position: each call on a peripheral takes the bytes
//! that follow those of the call before it, whichever peripheral that was.
//!
//! # How an operation decodes
//!
//! Every operation first asks an error-injection policy
//! ([`error::FuzzedError`]) whether it fails. The policy reads its decision
//! from the input and injects an error for about half of all decisions. An
//! operation that goes on reads its result from the bytes that follow: a pin
//! level from one byte, a word from as many bytes as it is wide, least
//! significant byte first, a buffer from as many bytes as it holds. Input
//! that runs out is a failure of the operation, never a panic.
//!
//! # What is stated
//!
//! For each operation there is a function that works on a
//! [`cursor::Cursor`], which the caller owns. Its contract says exactly what
//! is returned and how far the cursor moves. The method of the peripheral
//! runs that function where the shared position stands. Where that is
//! depends on the calls made before, which a contract cannot see; so the
//! contract of the method says that the result is the one decoded from the
//! input at some position.

pub mod adc;
pub mod cursor;
pub mod delay;
pub mod digital;
pub mod error;
pub mod fuzzed_type;
pub mod i2c;
pub mod pwm;
pub mod serial;
pub mod shared_data;
pub mod spi;
pub mod unstructured;
