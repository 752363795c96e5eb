//! Receipt printing for 80 mm thermal printers: a markdown-like document is
//! parsed into blocks, wrapped to the printer's character width, compiled into
//! an abstract command stream, and sent over one reusable USB connection, with
//! print jobs serialised one at a time. Images are reduced to 1-bit rasters.
//!
//! Every function here is verified: its contract states the result over the
//! spec functions of its module.

/// Character-level string helpers.
pub mod text;
/// Styled spans, blocks and the document parser.
pub mod markdown;
/// Wrapping blocks to the printer width.
pub mod word_wrap;
/// Compiling wrapped lines into printer commands.
pub mod rich_print;
/// Preparing raster images for thermal printing.
pub mod image_proc;
/// When to open, reuse and drop the printer connection.
pub mod connection;
/// The print-job backlog and the one job in flight.
pub mod scheduler;
/// Printer models, discovered devices and status bytes.
pub mod printer_info;
/// Website messages and their receipt layout.
pub mod messages;
/// CUPS queues that can hold the printer's USB interface.
pub mod cups;
/// Text print requests and the log filter.
pub mod log_filter;
/// What the user sees: statuses, listed messages, errors.
pub mod app_state;
