//! Verified core of a boot-firmware component updater: package-version
//! ordering, file-tree differences, the persisted update state, and the
//! parsing and decisions around the EFI and BIOS components.

pub mod text;
pub mod bios;
pub mod blockdev;
pub mod bootupd;
pub mod cli;
pub mod component;
pub mod efi;
pub mod filetree;
pub mod freezethaw;
pub mod grubconfigs;
pub mod model;
pub mod named;
pub mod ostreeutil;
pub mod packagesystem;
