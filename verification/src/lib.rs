//! Counting the objects of an image without showing the image to the party
//! that counts.
//!
//! An image is encrypted tile by tile, the tiles are put together to one
//! encrypted image, every pixel is compared with a reference colour under
//! encryption, and the regions of the decrypted mask are counted. A second
//! count compares the contour of every shape with that of a reference region.
//! Values are encrypted bit by bit, so that every channel value of 0 to 255
//! and every contour length is compared exactly.

pub mod error;
pub mod fhe;
pub mod channel;
pub mod number;
pub mod vision;
pub mod raster;
pub mod tiling;
pub mod encrypt_image;
pub mod components;
pub mod count_rgb;
pub mod count_shape;
pub mod pipeline;
