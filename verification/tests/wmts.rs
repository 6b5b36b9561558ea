use image::GenericImageView;
use radial::api::ApiError;
use radial::manifest::Manifest;
use radial::storage::NO_DATA;
use radial::wmts::{
    check_dataset_address, etag, grayscale_png, layer_source, line_offset, locate_tile,
    reduce_2x2, tile_answer, tile_column, tile_levels, tile_status, wmts_capabilities, xml_escape,
    CountTile, LayerKind, MinimumTile, TilePlan, TILE_SIZE,
};

fn refusal(status: u16, message: &'static str) -> ApiError {
    ApiError { status, message }
}

#[test]
fn semantic_reducers() {
    let v = [Some(9), None, Some(3), Some(5)];
    assert_eq!(reduce_2x2(v, LayerKind::Count), Some(9));
    assert_eq!(reduce_2x2(v, LayerKind::MinimumHeight), Some(3));
}

#[test]
fn reducers_pass_over_missing_values() {
    assert_eq!(reduce_2x2([None; 4], LayerKind::Count), None);
    assert_eq!(reduce_2x2([None; 4], LayerKind::MinimumHeight), None);
    let one = [None, None, Some(0), None];
    assert_eq!(reduce_2x2(one, LayerKind::Boolean), Some(0));
    assert_eq!(reduce_2x2(one, LayerKind::MinimumHeight), Some(0));
}

#[test]
fn png_signature() {
    let p = grayscale_png(&vec![0; TILE_SIZE * TILE_SIZE]).unwrap();
    assert_eq!(&p[..8], b"\x89PNG\r\n\x1a\n");
}

#[test]
fn tiles_can_be_read_back() {
    let pixels: Vec<u8> = (0..TILE_SIZE * TILE_SIZE).map(|i| (i % 253) as u8).collect();
    let png = grayscale_png(&pixels).unwrap();
    let tile = image::load_from_memory(&png).unwrap();
    assert_eq!(tile.dimensions(), (256, 256));
    assert_eq!(tile.to_luma8().into_raw(), pixels);
}

#[test]
fn tags_are_hashes_in_quotation_marks() {
    let tag = etag(b"tile");
    assert_eq!(tag, format!("\"{}\"", blake3::hash(b"tile").to_hex()));
    assert_eq!(tile_status(&tag, Some(&tag)), 304);
    assert_eq!(tile_status(&tag, Some("\"other\"")), 200);
    assert_eq!(tile_status(&tag, None), 200);
}

#[test]
fn lod_handles_odd_dimensions() {
    assert_eq!(tile_levels(256, 256), 1);
    assert_eq!(tile_levels(257, 255), 2);
    assert_eq!(tile_levels(8891, 8891), 7)
}

#[test]
fn levels_cover_every_size() {
    assert_eq!(tile_levels(0, 0), 1);
    assert_eq!(tile_levels(512, 3), 2);
    assert_eq!(tile_levels(3, 513), 3);
    assert_eq!(tile_levels(usize::MAX, 1), 57);
}

#[test]
fn count_tile_has_png_signature() {
    let file = [0u8, 1, 2, 3, 4, 5, 6, 7, 8];
    let plan = TilePlan {
        factor: 2,
        source_x: 0,
        source_y: 0,
        source_width: 3,
        source_height: 3,
    };
    let mut tile = CountTile::new(plan);
    while let Some(line) = tile.next_line() {
        let at = line_offset(plan, 3, 3, line, 1) as usize;
        tile.absorb(&file[at..at + plan.source_width]);
    }
    let pixels = tile.finish();
    let png = grayscale_png(&pixels).unwrap();
    assert_eq!(&png[..8], b"\x89PNG\r\n\x1a\n");
    assert_eq!(&pixels[..3], &[4, 5, 0]);
    assert_eq!(&pixels[TILE_SIZE..TILE_SIZE + 3], &[7, 8, 0]);
    assert_eq!(pixels.iter().filter(|p| **p != 0).count(), 4);
}

#[test]
fn minimum_tiles_show_the_lowest_height() {
    let heights = [NO_DATA, 257 * 9, 257 * 4 + 256, NO_DATA, NO_DATA, 65534];
    let file: Vec<u8> = heights.iter().flat_map(|h| h.to_le_bytes()).collect();
    let plan = TilePlan {
        factor: 2,
        source_x: 0,
        source_y: 0,
        source_width: 3,
        source_height: 2,
    };
    let mut tile = MinimumTile::new(plan);
    while let Some(line) = tile.next_line() {
        let at = line_offset(plan, 3, 2, line, 2) as usize;
        tile.absorb(&file[at..at + 2 * plan.source_width]);
    }
    let pixels = tile.finish();
    assert_eq!(&pixels[..3], &[9, 4, 0]);
    assert_eq!(pixels.iter().filter(|p| **p != 0).count(), 2);
}

#[test]
fn tiles_are_located_in_their_level() {
    assert_eq!(locate_tile(0, 5, 0, 0, 0), Err(refusal(204, "empty dataset")));
    assert_eq!(locate_tile(600, 300, 3, 0, 0), Err(refusal(400, "tile matrix")));
    assert_eq!(locate_tile(600, 300, 2, 2, 0), Err(refusal(404, "tile outside matrix")));
    assert_eq!(locate_tile(600, 300, 2, 0, 3), Err(refusal(404, "tile outside matrix")));
    assert_eq!(
        locate_tile(600, 300, 2, 1, 2),
        Ok(TilePlan {
            factor: 1,
            source_x: 512,
            source_y: 256,
            source_width: 88,
            source_height: 44,
        })
    );
    assert_eq!(
        locate_tile(600, 300, 1, 0, 1),
        Ok(TilePlan {
            factor: 2,
            source_x: 512,
            source_y: 0,
            source_width: 88,
            source_height: 300,
        })
    );
    assert_eq!(locate_tile(600, 300, 0, 0, 0).unwrap().factor, 4);
}

#[test]
fn tiles_are_ordered_from_a_manifest() {
    let manifest =
        Manifest::parse(b"{\"metadata\":{\"width\":600,\"height\":300}}").ok().unwrap();
    let order = manifest.order_tile("agl-75m", 2, 1, 2).unwrap().unwrap();
    assert_eq!(order.source, "agl-75m.bin");
    assert!(!order.minimum);
    assert_eq!((order.width, order.height, order.col), (600, 300, 2));
    assert_eq!(order.plan, locate_tile(600, 300, 2, 1, 2).unwrap());
    assert!(manifest.order_tile("min-detection-height", 0, 0, 0).unwrap().unwrap().minimum);
    let refused = |layer: &str, z: u8| manifest.order_tile(layer, z, 0, 0).unwrap().err();
    assert_eq!(refused("nothing", 0), Some(refusal(400, "layer")));
    assert_eq!(refused("nothing", 9), Some(refusal(400, "tile matrix")));
}

#[test]
fn xml_values_are_escaped() {
    assert_eq!(xml_escape("a&<\"'"), "a&amp;&lt;&quot;&apos;")
}

#[test]
fn custom_agl_layer_is_safe() {
    assert_eq!(layer_source("agl-75m").unwrap(), "agl-75m.bin");
    assert!(layer_source("agl-../x").is_err());
    assert!(layer_source("agl-70000m").is_err());
}

#[test]
fn layers_have_their_files() {
    for name in ["radar-count", "ground", "agl-30m", "agl-50m", "agl-100m", "min-detection-height"] {
        assert_eq!(layer_source(name).unwrap(), format!("{name}.bin"));
    }
    assert_eq!(layer_source("agl-0075m").unwrap(), "agl-75m.bin");
    assert_eq!(layer_source("agl-+75m").unwrap(), "agl-75m.bin");
    assert_eq!(layer_source("agl-m"), Err(refusal(400, "layer")));
    assert_eq!(layer_source(""), Err(refusal(400, "layer")));
}

#[test]
fn tile_names_give_the_column() {
    assert_eq!(tile_column("17.png"), Ok(17));
    assert_eq!(tile_column("17.jpg"), Err(refusal(400, "tile suffix")));
    assert_eq!(tile_column(".png"), Err(refusal(400, "tile column")));
    assert_eq!(tile_column("4294967296.png"), Err(refusal(400, "tile column")));
    assert_eq!(tile_column("4294967295.png"), Ok(u32::MAX));
    assert_eq!(check_dataset_address(1, "2026-09-08"), Ok(()));
    assert_eq!(
        check_dataset_address(1, "2026/09/08"),
        Err(refusal(400, "dataset version or date"))
    );
}

#[test]
fn capabilities_describe_layers_and_levels() {
    let scales = ["2.5".to_owned(), "1.25".to_owned()];
    let xml = wmts_capabilities(9, 1, "2026-09-08", 300, 200, "a<b", &scales, "-5.0", "7.5");
    assert!(xml.starts_with("<?xml version=\"1.0\" encoding=\"UTF-8\"?><Capabilities xmlns="));
    assert_eq!(xml.matches("<Layer>").count(), 6);
    assert!(xml.contains(
        "template=\"/wmts/00000000-0000-0000-0000-000000000009/1/2026-09-08/radar-count/{TileMatrix}/{TileRow}/{TileCol}.png\""
    ));
    assert!(xml.contains("<ows:SupportedCRS>a&lt;b</ows:SupportedCRS>"));
    assert!(xml.contains(
        "<TileMatrix><ows:Identifier>0</ows:Identifier><ScaleDenominator>2.5</ScaleDenominator><TopLeftCorner>-5.0 7.5</TopLeftCorner><TileWidth>256</TileWidth><TileHeight>256</TileHeight><MatrixWidth>1</MatrixWidth><MatrixHeight>1</MatrixHeight></TileMatrix>"
    ));
    assert!(xml.contains(
        "<ows:Identifier>1</ows:Identifier><ScaleDenominator>1.25</ScaleDenominator>"
    ));
    assert!(xml.contains("<MatrixWidth>2</MatrixWidth><MatrixHeight>1</MatrixHeight>"));
    assert!(xml.ends_with("</TileMatrixSet></Contents></Capabilities>"));
}

/// A tile that is asked for again with its tag is not sent again.
#[test]
fn revalidated_tiles_have_no_body() {
    let tile = vec![1u8, 2, 3];
    let first = tile_answer(tile.clone(), None);
    assert_eq!((first.status, &first.body), (200, &tile));
    assert_eq!(first.tag, etag(&tile));
    assert_eq!(first.content_type, "image/png");
    let second = tile_answer(tile.clone(), Some(&first.tag));
    assert_eq!((second.status, second.body.len()), (304, 0));
    assert_eq!(second.tag, first.tag);
    for answer in [&first, &second] {
        assert_eq!(answer.cache_control, "public, max-age=31536000, immutable");
    }
    let changed = tile_answer(vec![1u8, 2, 4], Some(&first.tag));
    assert_eq!((changed.status, changed.body), (200, vec![1, 2, 4]));
}
