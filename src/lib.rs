// Splitting byte ranges of a large file out into part files for editing, and
// putting the file back together with the edited parts in their place.
//
// `range` parses and measures byte ranges, `plan` turns a manifest's ranges
// into the segments of a combine, `stream` copies those segments out in
// bounded chunks, and `names` derives the files' names.

pub mod names;
pub mod plan;
pub mod range;
pub mod stream;
