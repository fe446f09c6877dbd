//! The decisions of `dsdk`, a manager of SDK versions in the manner of SDKMAN!:
//! which installed version a partial name designates, how `PATH` changes when a
//! version is used or reverted, how activity and project configurations read,
//! how the service's listings read and sort, and where an installation puts
//! things. The program around it performs the file, network and shell work.
use vstd::prelude::*;

pub mod text;
pub mod filesystem;
pub mod assoc;
pub mod use_sdkit;
pub mod numbers;
pub mod versions;
pub mod json;
pub mod activity;
pub mod environment_for_project;
pub mod matching;
pub mod sdkman_api;
pub mod operating_system;
pub mod install_sdkit;
pub mod setup;
pub mod cli;
