//! A compiler and virtual machine for a minimal eight-operator tape language.
//!
//! The compiler folds runs of repeated operators into single instructions and
//! resolves loop brackets to absolute jump targets by backpatching; the virtual
//! machine executes the resulting instruction stream against a fixed-size byte
//! tape with wraparound cell arithmetic and checked pointer moves.

pub mod compiler;
pub mod ops;
pub mod vm;
