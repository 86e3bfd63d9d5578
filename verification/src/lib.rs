//! Verified core of a Markdown-backed project manager: frontmatter parsing,
//! checklist actions, project-file rewriting, tasks, routines and undo history.

pub mod text;
pub mod frontmatter;
pub mod tokens;
pub mod action;
pub mod project_file;
pub mod naming;
pub mod undo;
pub mod dates;
pub mod mover;
pub mod project;
pub mod task;
pub mod routine_time;
pub mod routine;
pub mod config;
pub mod commands;
pub mod agent;
pub mod timeline;
pub mod api;
pub mod report;
pub mod readback;
