//! A lexical-semantic resource server core: a compact synset-key codec, a
//! streaming LMF loader, enrichment passes that fuse crosswalks, foreign
//! translations, sense-tagged glosses and external links into the graph, and
//! an in-memory storage engine with point lookups and bounded prefix scans.
#![verifier::loop_isolation(false)]

pub mod facade;
pub mod glosstag;
pub mod keys;
pub mod links;
pub mod model;
pub mod omwn;
pub mod text;
pub mod wordnet;
pub mod wordnet_read;
pub mod xml_events;
