//! Ranking-quality evaluation of search results: relevance judgments per query,
//! their ideal ranking, and the gains a returned ranking collects rank by rank.

pub mod domain;
