pub mod pipeline;
pub mod render;
pub mod rgba;
pub mod qr;
pub mod barcode;
pub mod error;
pub mod text;

pub use barcode::{generate_barcode, BarcodeMatrix, BarcodeType};
pub use error::CoreError;
pub use qr::{generate_qr, vcard_qr_config, wifi_qr_config, QrEcLevel, QrMatrix, QrOptions};
pub use render::{barcode_to_png, barcode_to_svg, qr_to_png, qr_to_svg};
