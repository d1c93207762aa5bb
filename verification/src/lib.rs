//! Decisions of a Project Zomboid workshop mod manager.
pub mod answer_laws;
pub mod bisect;
pub mod bisect_laws;
pub mod bisect_step_laws;
pub mod bisect_view_laws;
pub mod browse;
pub mod browse_laws;
pub mod cache;
pub mod change_laws;
pub mod copy;
pub mod deps;
pub mod detail;
pub mod detail_laws;
pub mod download;
pub mod download_laws;
pub mod fetch_laws;
pub mod flow;
pub mod flow_laws;
pub mod folder;
pub mod folder_laws;
pub mod install;
pub mod install_laws;
pub mod installing;
pub mod jobs;
pub mod json;
pub mod json_laws;
pub mod layout;
pub mod levels;
pub mod modinfo;
pub mod modinfo_laws;
pub mod names;
pub mod page;
pub mod page_laws;
pub mod paths;
pub mod progress;
pub mod rate;
pub mod remove;
pub mod request_laws;
pub mod resolve;
pub mod resolve_laws;
pub mod save;
pub mod state;
pub mod state_laws;
pub mod table;
pub mod text;
pub mod text_laws;
pub mod transaction;
pub mod updating;
pub mod url;
pub mod walk;
pub mod walk_end;
pub mod walk_laws;
pub mod walk_step_laws;
pub mod workshop;
pub mod workshop_laws;
