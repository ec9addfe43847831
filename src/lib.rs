pub mod util;
pub mod rgba;
pub mod bit_depth;
pub mod file_header;
pub mod info_header;
pub mod image;
pub mod rgb_quad;
pub mod pixel_data;
pub mod codec;
pub mod decode;
pub mod round_trip;
