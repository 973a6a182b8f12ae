//! Verified core of a subtree-clone operation over a hierarchical content
//! graph: depth-bounded subtree retrieval, fresh-identity remapping, cloning
//! of nodes, revisions, phrasings and child-links with rewritten references,
//! tag retargeting, and construction of the root-attachment link.
//!
//! The library computes the complete set of rows to write as a plain value
//! (a [`cloneop::ClonePlan`]); the surrounding application performs the
//! persistence calls inside one transaction with constraint checks deferred,
//! so that a failure at any point leaves no visible effect.
#![allow(non_snake_case)]

pub mod entities;
pub mod idmap;
pub mod cloneop;
pub mod fetch;
pub mod laws;
