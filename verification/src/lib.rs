//! Verified core of a face tracking and head pose pipeline: track
//! bookkeeping, face detection decoding, face selection, crop geometry, the
//! decisions of the camera user interface, and Steam library metadata.
pub mod text;
pub mod steam;
pub mod bytetrack;
pub mod tracking;
pub mod scrfd;
pub mod faceselector;
pub mod detectioncrop;
pub mod crop;
pub mod frame;
pub mod resolution;
pub mod cameras;
pub mod viewfinder;
pub mod control;
pub mod pnp;
