//! Rewriting passes over the intermediate representation of a theorem program.

pub mod assoc;
pub mod bundle_meaning;
pub mod bundles;
pub mod callee_requires_entry;
pub mod callee_requires_precond;
pub mod cleanup;
pub mod coalesce;
pub mod constant_folding;
pub mod cut_types;
pub mod cutting;
pub mod dead_code_removal;
pub mod dead_param_elimination;
pub mod decompose_aborts;
pub mod decompose_ensures;
pub mod deep_nesting;
pub mod dependency_order;
pub mod df_borrows;
pub mod dynamic_field_rewriting;
pub mod early_return;
pub mod early_return_elimination;
pub mod forwarding;
pub mod ensures_meaning;
pub mod frame_lemmas;
pub mod frame_meaning;
pub mod ghost_threading;
pub mod graph;
pub mod idents;
pub mod import_collection;
pub mod inject_arithmetic_aborts;
pub mod ir;
pub mod lean_termination;
pub mod logical_simplification;
pub mod loop_body_extraction;
pub mod loop_inv_entry;
pub mod markers;
pub mod meaning;
pub mod measure;
pub mod obligations;
pub mod optimize;
pub mod parts;
pub mod phi_lifting;
pub mod positions;
pub mod program;
pub mod prop_lifting;
pub mod scope;
pub mod segments;
pub mod shadowing;
pub mod sizes;
pub mod sorting;
pub mod spine_cuts;
pub mod split_meaning;
pub mod splitting;
pub mod statement_meaning;
pub mod statements;
pub mod substitution;
pub mod text;
pub mod threading;
pub mod traverse;
pub mod typed_maps;
pub mod types;
pub mod word;
pub mod writebacks;
pub mod written_meaning;
