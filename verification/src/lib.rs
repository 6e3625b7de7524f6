//! Public API surface of Swift packages: building it from symbol graphs,
//! rendering it, and comparing two snapshots of it.

pub mod additive_laws;
pub mod attribute_laws;
pub mod attributes;
pub mod command;
pub mod comparison_laws;
pub mod declaration;
pub mod declaration_laws;
pub mod diff;
pub mod diff_laws;
pub mod document_laws;
pub mod graph;
pub mod graph_laws;
pub mod html;
pub mod html_assets;
pub mod html_laws;
pub mod identity;
pub mod identity_laws;
pub mod markdown;
pub mod markup;
pub mod membership_laws;
pub mod model;
pub mod module_files;
pub mod order;
pub mod order_laws;
pub mod package;
pub mod package_laws;
pub mod page_laws;
pub mod page_text_laws;
pub mod report;
pub mod report_entry_laws;
pub mod report_output;
pub mod report_output_laws;
pub mod shape_laws;
pub mod snapshot_laws;
pub mod symbol_name;
pub mod symbol_name_laws;
pub mod symbols;
pub mod tally;
pub mod tally_laws;
pub mod text;
pub mod text_laws;
pub mod textmap;
pub mod verdict_laws;
pub mod walk;
