//! Resolution, planning and reporting for the configuration of a system.

pub mod text;
pub mod path;
pub mod cfs;
pub mod value;
pub mod document;
pub mod var;
pub mod hosts;
pub mod doc;
pub mod tar;
pub mod table;
pub mod provider;
pub mod template;
pub mod order;
pub mod resource;
pub mod apply;
pub mod exec;
pub mod record;
pub mod varlink;
pub mod detc;
pub mod manager;
pub mod objects;
pub mod signers;
pub mod run;
pub mod bundle;
pub mod settings;
pub mod journal;
pub mod last;
pub mod lock;
pub mod machine;
pub mod verbs;
pub mod detcd;
pub mod detctl;
