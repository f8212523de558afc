//! Offline tooling for game assets: conversion of interchange scene documents
//! into indexed meshes, bone skeletons and rotation tracks, together with the
//! small image and palette helpers that the same tool chain uses.
//!
//! Every real number in this crate is carried as the bit pattern of a 32-bit
//! float (`u32`); the arithmetic on such numbers is supplied by the caller
//! through [`convert::Numerics`].

pub mod atlas;
pub mod color;
pub mod convert;
pub mod distinct;
pub mod im;
