//! Chapter planning for paginated documents.
//!
//! The library walks the outline of a PDF document, the tree of its
//! bookmarks, resolves each bookmark to a page, and works out from the
//! result an ordered list of chapters, each a range of pages. A caller can
//! then carve the document into one file for each chapter.
//!
//! The way through the library is that of the data:
//!
//! * [`page_index`] numbers the pages of the document;
//! * [`name_tree`] gathers its named destinations into the table of
//!   [`named_dests`];
//! * [`outline`] walks the bookmarks, and [`destination`] resolves each to a
//!   page;
//! * [`chapters`] turns the bookmarks that lead to a page into chapters;
//! * [`plan`] does all of this for a document, and [`filename`] names the
//!   files.
//!
//! What a contract here states is proved, but for the small wrappers in
//! [`pdf`] and [`text`] that call into `lopdf` and `std`: their contracts say
//! what is taken on trust. The objects of a document are `lopdf`'s;
//! contracts speak of them through the model of [`model`].

pub mod model;
pub mod pdf;
pub mod accessor;
pub mod bytes;
pub mod text;
pub mod visited;
pub mod walk;
pub mod page_index;
pub mod named_dests;
pub mod name_tree;
pub mod destination;
pub mod outline;
pub mod chapters;
pub mod filename;
pub mod plan;
