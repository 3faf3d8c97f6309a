//! Whole-board routing: decomposes every unrouted net into two-pin
//! connections, negotiates them together on a coarse global grid, routes
//! each with the detail router, and commits the results to the board.

pub mod route;
