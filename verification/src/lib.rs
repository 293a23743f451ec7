//! DevPilot's verified core: the domain model of an analyzed repository and
//! the pure, deterministic computations over it.

pub mod text;
pub mod usecases;
pub mod order;
pub mod entities;
pub mod paths;
pub mod ports;
pub mod ai;
pub mod analysis;
pub mod architecture;
pub mod chat;
pub mod detectors;
pub mod errors;
pub mod git;
pub mod intel;
pub mod manifest;
