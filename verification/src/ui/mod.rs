pub mod sparql_dialog;
pub mod recent_projects;
