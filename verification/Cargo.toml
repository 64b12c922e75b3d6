[package]
name = "crabmagick_core"
version = "0.1.0"
edition = "2021"
publish = false

[dependencies]
fast_image_resize = "*"
image = { version = "0.25", default-features = false, features = ["bmp", "gif", "hdr", "ico", "jpeg", "png", "pnm", "qoi", "tga", "tiff", "webp"] }
lru = "*"
memmap2 = "0.9"
pdfium-render = "*"
ravif = { version = "*", default-features = false, features = ["threading"] }
rayon = "1"
resvg = "*"
thiserror = "2"
tiff = "*"

[dev-dependencies]
rand = "0.8"
webp = "0.3"
