//! Streaming of process images.
//!
//! An image is a set of files. It travels as a number of shards, each of which carries some of the
//! markers that make up the image and the contents that follow them. This library takes every
//! decision on the receiving side: how markers are put back in order ([`deserializer`]), how file
//! contents are handed on within a memory budget ([`image_store::fs_parallel`], [`semaphore`]), how
//! clients are served while the image is still coming in ([`serve`]), and how shards are compressed
//! into objects and back ([`comm`]). What reads, writes and waits is left to the caller.
//!
//! What these parts promise together is stated and proved in [`steps`], [`reassembly`],
//! [`main_loop`] and [`delivery`], and next to the parts themselves in the proof functions whose
//! names begin with `law_`.

pub mod cli;
pub mod comm;
pub mod delivery;
pub mod deserializer;
pub mod image_store;
pub mod lz4;
pub mod main_loop;
pub mod marker;
pub mod metadata;
pub mod pattern;
pub mod reassembly;
pub mod semaphore;
pub mod serve;
pub mod steps;
pub mod text;
