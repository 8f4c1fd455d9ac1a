//! OWL 2 reasoning support library: ontology model, class-hierarchy indexes,
//! profile detection, routing decisions, a compact binary ontology format and
//! the decision logic of the speculative tableaux reasoner.

pub mod error;
pub mod iri;
pub mod entities;
pub mod class_expression;
pub mod compact_hierarchy;
pub mod axioms_core;
pub mod axioms;
pub mod ontology;
pub mod byte_codec;
pub mod string_table;
pub mod expr_codec;
pub mod binary_format;
pub mod binary_image;
pub mod text;
pub mod ntriples;
pub mod parser;
pub mod rdf_xml;
pub mod owl_xml;
pub mod class_graph;
pub mod grail;
pub mod profiles;
pub mod analysis;
pub mod router;
pub mod speculative;
pub mod branches;
pub mod batch;
pub mod memory;
pub mod reasoning;
pub mod meta_reasoner;
pub mod expansion;
pub mod profile_cache;
pub mod optimized_hierarchy;
pub mod reachability;
pub mod loading;
