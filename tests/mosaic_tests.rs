use mosaic::color::{distance_squared, residual, Residual, Rgb};
use mosaic::dither::WorkingRaster;
use mosaic::error::MosaicError;
use mosaic::mosaic::{compose, grid_height};
use mosaic::paths::{find_images, is_image_path};
use mosaic::raster::{average_color, Image};
use mosaic::tiles::TileLibrary;

fn pixel(r: u8, g: u8, b: u8, a: u8) -> Image {
    Image { width: 1, height: 1, data: vec![r, g, b, a] }
}

fn raster(width: usize, height: usize, c: Rgb) -> WorkingRaster {
    WorkingRaster { width, height, pixels: vec![c; width * height] }
}

fn library(colors: &[(u8, u8, u8)]) -> TileLibrary {
    let images: Vec<Image> = colors.iter().map(|&(r, g, b)| pixel(r, g, b, 255)).collect();
    TileLibrary::build(&images, 1)
}

fn paths(names: &[&str]) -> Vec<Vec<u8>> {
    names.iter().map(|s| s.as_bytes().to_vec()).collect()
}

#[test]
fn distance_is_zero_on_equal_colors_and_symmetric() {
    let a = Rgb::new(12, 200, 7);
    let b = Rgb::new(250, 3, 90);
    assert_eq!(distance_squared(&a, &a), 0);
    assert_eq!(distance_squared(&a, &b), distance_squared(&b, &a));
    assert!(distance_squared(&a, &b) > 0);
}

#[test]
fn distance_exact_value() {
    let red = Rgb::new(255, 0, 0);
    let green = Rgb::new(0, 255, 0);
    assert_eq!(distance_squared(&red, &green), 130050);
    assert_eq!(distance_squared(&Rgb::new(1, 2, 3), &Rgb::new(4, 6, 3)), 25);
}

#[test]
fn residual_is_signed_difference() {
    let e = residual(&Rgb::new(10, 200, 0), &Rgb::new(30, 100, 255));
    assert_eq!(e, Residual { r: -20, g: 100, b: -255 });
}

#[test]
fn build_keeps_last_tile_on_key_collision() {
    let images = vec![pixel(255, 0, 0, 255), pixel(0, 255, 0, 255), pixel(255, 0, 0, 100)];
    let lib = TileLibrary::build(&images, 1);
    assert_eq!(lib.len(), 2);
    assert_eq!(lib.entries[0].key, Rgb::new(255, 0, 0));
    assert_eq!(lib.entries[0].image.data, vec![255, 0, 0, 100]);
    assert_eq!(lib.entries[1].key, Rgb::new(0, 255, 0));
}

#[test]
fn build_skips_empty_images() {
    let images = vec![Image { width: 0, height: 0, data: vec![] }, pixel(1, 2, 3, 255)];
    let lib = TileLibrary::build(&images, 1);
    assert_eq!(lib.len(), 1);
    assert_eq!(lib.entries[0].key, Rgb::new(1, 2, 3));
}

#[test]
fn build_resizes_tiles_to_tile_size() {
    let img = Image { width: 2, height: 2, data: vec![200; 16] };
    let lib = TileLibrary::build(&vec![img], 1);
    assert_eq!(lib.len(), 1);
    assert_eq!(lib.entries[0].image.width, 1);
    assert_eq!(lib.entries[0].image.height, 1);
    assert_eq!(lib.entries[0].image.data.len(), 4);
}

#[test]
fn average_color_mixes_pixels() {
    let img = Image { width: 2, height: 1, data: vec![255, 0, 0, 255, 0, 0, 255, 255] };
    let c = average_color(&img);
    assert!(c.r > 0 && c.r < 255);
    assert!(c.b > 0 && c.b < 255);
    assert_eq!(c.g, 0);
}

#[test]
fn nearest_returns_closest_key_and_residual() {
    let lib = library(&[(0, 0, 0), (100, 100, 100), (255, 255, 255)]);
    let (k, e) = lib.nearest(&Rgb::new(90, 90, 90)).unwrap();
    assert_eq!(k, Rgb::new(100, 100, 100));
    assert_eq!(e, Residual { r: -10, g: -10, b: -10 });
}

#[test]
fn nearest_breaks_ties_by_first_inserted_key() {
    let lib = library(&[(0, 0, 0), (20, 0, 0)]);
    let (k, e) = lib.nearest(&Rgb::new(10, 0, 0)).unwrap();
    assert_eq!(k, Rgb::new(0, 0, 0));
    assert_eq!(e, Residual { r: 10, g: 0, b: 0 });
    let lib2 = library(&[(20, 0, 0), (0, 0, 0)]);
    assert_eq!(lib2.nearest(&Rgb::new(10, 0, 0)).unwrap().0, Rgb::new(20, 0, 0));
}

#[test]
fn nearest_on_empty_library_fails() {
    let lib = TileLibrary::new();
    assert!(lib.is_empty());
    assert_eq!(lib.nearest(&Rgb::new(1, 1, 1)), Err(MosaicError::NoCandidateTiles));
    assert_eq!(lib.nearest_position(&Rgb::new(1, 1, 1)), Err(MosaicError::NoCandidateTiles));
}

#[test]
fn diffuse_clamps_extreme_errors() {
    let mut w = raster(2, 2, Rgb::new(128, 128, 128));
    w.diffuse(0, 0, &Residual { r: 1000, g: -1000, b: 0 });
    assert_eq!(w.pixels[0], Rgb::new(128, 128, 128));
    assert_eq!(w.pixels[1], Rgb::new(255, 0, 128));
    assert_eq!(w.pixels[2], Rgb::new(255, 0, 128));
    assert_eq!(w.pixels[3], Rgb::new(190, 66, 128));
}

#[test]
fn diffuse_truncates_toward_zero() {
    let mut w = raster(2, 1, Rgb::new(100, 100, 100));
    w.diffuse(0, 0, &Residual { r: -17, g: 17, b: 1 });
    assert_eq!(w.pixels[1], Rgb::new(93, 107, 100));
}

#[test]
fn diffuse_on_last_column_skips_right_targets() {
    let base = Rgb::new(100, 100, 100);
    let mut w = raster(3, 2, base);
    w.diffuse(2, 0, &Residual { r: 32, g: 0, b: 0 });
    assert_eq!(w.pixels[0], base);
    assert_eq!(w.pixels[1], base);
    assert_eq!(w.pixels[2], base);
    assert_eq!(w.pixels[3], base);
    assert_eq!(w.pixels[4], Rgb::new(106, 100, 100));
    assert_eq!(w.pixels[5], Rgb::new(110, 100, 100));
}

#[test]
fn diffuse_on_last_row_updates_only_right_neighbour() {
    let base = Rgb::new(100, 100, 100);
    let mut w = raster(3, 2, base);
    w.diffuse(1, 1, &Residual { r: 32, g: 0, b: 0 });
    for i in 0..5 {
        assert_eq!(w.pixels[i], base);
    }
    assert_eq!(w.pixels[5], Rgb::new(114, 100, 100));
}

#[test]
fn diffuse_on_last_cell_changes_nothing() {
    let base = Rgb::new(7, 8, 9);
    let mut w = raster(2, 2, base);
    w.diffuse(1, 1, &Residual { r: 500, g: 500, b: 500 });
    assert!(w.pixels.iter().all(|&p| p == base));
}

#[test]
fn end_to_end_two_pixel_mosaic() {
    let source = Image { width: 2, height: 1, data: vec![255, 0, 0, 255, 0, 255, 0, 255] };
    let lib = library(&[(255, 0, 0), (0, 255, 0)]);
    let m = compose(&source, &lib, 2, 1, false).unwrap();
    assert_eq!(m.image.width, 2);
    assert_eq!(m.image.height, 1);
    assert_eq!(m.image.data, vec![255, 0, 0, 255, 0, 255, 0, 255]);
    assert_eq!(m.used.len(), 2);
    assert!(m.used.contains(&Rgb::new(255, 0, 0)));
    assert!(m.used.contains(&Rgb::new(0, 255, 0)));
}

#[test]
fn dithering_changes_later_choices() {
    let source = Image { width: 2, height: 1, data: vec![100, 100, 100, 255, 100, 100, 100, 255] };
    let lib = library(&[(0, 0, 0), (255, 255, 255)]);
    let plain = compose(&source, &lib, 2, 1, false).unwrap();
    assert_eq!(plain.image.data, vec![0, 0, 0, 255, 0, 0, 0, 255]);
    assert_eq!(plain.used, vec![Rgb::new(0, 0, 0)]);
    let dithered = compose(&source, &lib, 2, 1, true).unwrap();
    assert_eq!(dithered.image.data, vec![0, 0, 0, 255, 255, 255, 255, 255]);
    assert_eq!(dithered.used.len(), 2);
}

#[test]
fn tiles_fill_cells_of_tile_size() {
    let source = Image { width: 1, height: 1, data: vec![10, 10, 10, 255] };
    let tile = Image { width: 2, height: 2, data: vec![10, 10, 10, 255, 1, 2, 3, 4, 5, 6, 7, 8, 9, 9, 9, 9] };
    let mut lib = TileLibrary::new();
    lib.insert(Rgb::new(10, 10, 10), tile);
    let m = compose(&source, &lib, 1, 3, false).unwrap();
    assert_eq!(m.image.width, 3);
    assert_eq!(m.image.height, 3);
    assert_eq!(&m.image.data[0..8], &[10, 10, 10, 255, 1, 2, 3, 4]);
    assert_eq!(&m.image.data[8..12], &[0, 0, 0, 0]);
    assert_eq!(&m.image.data[12..20], &[5, 6, 7, 8, 9, 9, 9, 9]);
    assert!(m.image.data[20..].iter().all(|&b| b == 0));
}

#[test]
fn compose_with_empty_tile_directory_fails() {
    let lib = TileLibrary::build(&vec![], 1);
    let source = Image { width: 2, height: 1, data: vec![255, 0, 0, 255, 0, 255, 0, 255] };
    assert!(matches!(compose(&source, &lib, 2, 1, true), Err(MosaicError::NoCandidateTiles)));
}

#[test]
fn compose_rejects_zero_sizes() {
    let source = Image { width: 1, height: 1, data: vec![1, 2, 3, 4] };
    let lib = library(&[(1, 2, 3)]);
    assert!(matches!(compose(&source, &lib, 0, 1, false), Err(MosaicError::InvalidDimensions)));
    assert!(matches!(compose(&source, &lib, 1, 0, false), Err(MosaicError::InvalidDimensions)));
    let tall = Image { width: 1, height: 0, data: vec![] };
    assert!(matches!(compose(&tall, &lib, 1, 1, false), Err(MosaicError::InvalidDimensions)));
}

#[test]
fn compose_rejects_flat_grid() {
    let wide = Image { width: 10, height: 1, data: vec![0; 40] };
    let lib = library(&[(0, 0, 0)]);
    assert!(matches!(compose(&wide, &lib, 2, 1, false), Err(MosaicError::InvalidDimensions)));
}

#[test]
fn compose_rejects_tiles_larger_than_cells() {
    let source = Image { width: 1, height: 1, data: vec![1, 2, 3, 4] };
    let lib = TileLibrary::build(&vec![pixel(1, 2, 3, 255)], 2);
    assert!(matches!(compose(&source, &lib, 1, 1, false), Err(MosaicError::TileTooLarge)));
}

#[test]
fn grid_height_keeps_aspect_ratio() {
    assert_eq!(grid_height(512, 1024, 768), 384);
    assert_eq!(grid_height(3, 2, 1), 2);
    assert_eq!(grid_height(10, 3, 1), 3);
    assert_eq!(grid_height(2, 2, 1), 1);
    assert_eq!(grid_height(2, 10, 1), 0);
    let h = grid_height(500, 333, 777) as i64;
    assert!((h * 333 - 500 * 777).abs() * 2 <= 333);
}

#[test]
fn find_images_filters_and_sorts() {
    let found = find_images(paths(&[
        "t/b.png", "t/a.jpg", "t/c.txt", "t/.png", "t/d.PNG", "t/e.jpeg", "t/f.gif", "t/dir", "t/..",
    ]));
    assert_eq!(found, paths(&["t/a.jpg", "t/b.png", "t/e.jpeg", "t/f.gif"]));
}

#[test]
fn find_images_of_nothing_is_empty() {
    assert!(find_images(vec![]).is_empty());
}

#[test]
fn image_path_extension_rules() {
    assert!(is_image_path(&b"x.y/tile.gif".to_vec()));
    assert!(is_image_path(&b"a..png".to_vec()));
    assert!(!is_image_path(&b"dir.png/tile".to_vec()));
    assert!(!is_image_path(&b"tile.png.bak".to_vec()));
    assert!(!is_image_path(&b"tile.Jpg".to_vec()));
    assert!(!is_image_path(&b"png".to_vec()));
    assert!(!is_image_path(&b"".to_vec()));
}
