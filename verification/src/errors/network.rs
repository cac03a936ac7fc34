//! Structural graph failures: ambiguous or missing start or end nodes,
//! and an end node the start node does not connect to.

use vstd::prelude::*;

verus! {

/// No unique start node: `starts` holds every candidate id (those with
/// no predecessors), so it is empty or holds more than one id.
#[derive(Debug)]
pub struct StartNodeError {
    pub starts: Vec<u32>,
}

/// No unique end node: `ends` holds every candidate id (those with no
/// successors), so it is empty or holds more than one id.
#[derive(Debug)]
pub struct EndNodeError {
    pub ends: Vec<u32>,
}

/// The start node does not connect to the end node.
#[derive(Debug)]
pub struct NoEndConnectionError {
    pub start_id: u32,
    pub end_id: u32,
}

} // verus!
