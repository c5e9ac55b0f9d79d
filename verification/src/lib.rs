//! Remote course sources: saved SFTP, WebDAV and S3 servers, and Google Drive.
//!
//! Everything here decides and nothing here waits: which request to send, what a reply
//! comes to, which block of a stream to fetch, which directory to list next. Code that
//! can reach the network, the keychain and the disk does as it is told and hands the
//! outcome back.
//!
//! * [`remote`] — servers, their URIs, and the three backends.
//! * [`stream_cache`] — the block cache that video is streamed from.
//! * [`remote_protocol`] and [`drive_protocol`] — the `srv://` and `gdrive://` schemes.
//! * [`commands`] — what the settings form, the folder browser and the resource viewer
//!   ask for.
//! * [`text`], [`percent`] and [`id_map`] — what the others are written in.
pub mod commands;
pub mod drive_protocol;
pub mod id_map;
pub mod percent;
pub mod remote;
pub mod remote_protocol;
pub mod stream_cache;
pub mod text;
