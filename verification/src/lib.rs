//! A fuzzy-filtering engine for interactive "type-to-narrow" selection over a
//! set of text candidates.
//!
//! The engine keeps an ordered store of candidate strings, re-ranks them by
//! fuzzy-match quality whenever the filter term or the candidate set changes,
//! tracks a selection cursor over the ranked matches, and decodes match
//! indices into highlight segments for a presentation layer.

pub mod data;
pub mod highlight;
pub mod scorer;

pub use data::{Candidate, FuzzyFinder, FuzzyListEntry, FuzzyScore, MatchState};
pub use highlight::{sections_from_stringdices, MatchHighlightError, Style};
