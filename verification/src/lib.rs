//! Bayesian graph model library.
pub mod util;
pub mod cycles;
pub mod text;
pub mod graph_ir;
pub mod graph_checks;
pub mod plate_errors;
pub mod plate_validation;
pub mod normalize;
pub mod scopes;
pub mod model_plan;
pub mod instance_plan;
pub mod distributions;
pub mod model_values;
pub mod inference;
pub mod plate_geometry;
pub mod inference_run;
pub mod sidebar_layout;
pub mod posterior_views;
pub mod selection_groups;
pub mod linked_samples;
pub mod joint_samples;
pub mod numbers;
pub mod compilation;
pub mod presets;
pub mod expressions;
pub mod plate_mapping;
pub mod reduced_view;
pub mod editor_events;
pub mod node_labels;
pub mod histogram_controls;
pub mod sample_selections;
pub mod datasets;
