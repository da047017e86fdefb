use base64::Engine;
use image::{ImageBuffer, ImageFormat, Rgba};
use webby::error::{WebbyError, WebbyResult};
use webby::html::parse_document;
use webby::image::{
    DecodedImage, ImageMap, ImageResource, collect_image_references, decode_image, load_images,
    resolve_image_url, to_layout_image_map,
};
use webby::weburl::WebUrl;
use webby::response::{ResourceLoader, ResourceResponse};

struct EmptyLoader;

impl ResourceLoader for EmptyLoader {
    fn load(&self, url: &WebUrl) -> WebbyResult<ResourceResponse> {
        Err(WebbyError::Network {
            message: format!("unexpected test load for {}", url.as_str()),
        })
    }
}

struct StaticBytesLoader {
    bytes: Vec<u8>,
}

impl ResourceLoader for StaticBytesLoader {
    fn load(&self, url: &WebUrl) -> WebbyResult<ResourceResponse> {
        Ok(ResourceResponse {
            requested_url: url.clone(),
            final_url: url.clone(),
            status: Some(200),
            content_type: Some("application/octet-stream".to_string()),
            headers: Vec::new(),
            bytes: self.bytes.clone(),
        })
    }
}

fn web_url(raw: &str) -> WebbyResult<WebUrl> {
    WebUrl::parse(raw).ok_or_else(|| WebbyError::Url {
        message: format!("test URL parse failed: {raw}"),
    })
}

fn encoded_test_image(format: ImageFormat) -> WebbyResult<Vec<u8>> {
    let image = ImageBuffer::from_fn(2, 1, |x, _| {
        if x == 0 {
            Rgba([255, 0, 0, 255])
        } else {
            Rgba([0, 255, 0, 255])
        }
    });
    let mut cursor = std::io::Cursor::new(Vec::new());
    image::DynamicImage::ImageRgba8(image)
        .write_to(&mut cursor, format)
        .map_err(|error| WebbyError::Parse {
            message: format!("failed to encode test image: {error}"),
        })?;
    Ok(cursor.into_inner())
}

fn resource(src: &str, url: &str) -> ImageResource {
    ImageResource {
        src: src.to_string(),
        final_url: url.to_string(),
        image: DecodedImage {
            width: 1,
            height: 1,
            pixels: vec![1, 2, 3, 255],
        },
    }
}

#[test]
fn img_src_is_preserved_from_html() -> WebbyResult<()> {
    let document = parse_document(
        "<body><img src=\"images/logo.png\" alt=\"Logo\" width=\"10\" height=\"5\"></body>",
    )?;
    let references = collect_image_references(&document);

    assert_eq!(references.len(), 1);
    assert_eq!(references[0].src, "images/logo.png");
    Ok(())
}

#[test]
fn video_poster_is_collected_as_image_reference() -> WebbyResult<()> {
    let document =
        parse_document("<body><video poster=\"poster.png\" src=\"movie.mp4\"></video></body>")?;
    let references = collect_image_references(&document);

    assert_eq!(references.len(), 1);
    assert_eq!(references[0].src, "poster.png");
    Ok(())
}

#[test]
fn relative_image_url_resolves_against_file_url() -> WebbyResult<()> {
    let base = web_url("file:///tmp/webby/pages/index.html")?;
    let resolved = resolve_image_url(&base, "../img/logo.png")?;

    assert_eq!(resolved.as_str(), "file:///tmp/webby/img/logo.png");
    Ok(())
}

#[test]
fn relative_image_url_resolves_against_http_url() -> WebbyResult<()> {
    let base = web_url("https://example.test/docs/index.html")?;
    let resolved = resolve_image_url(&base, "img/logo.png")?;

    assert_eq!(resolved.as_str(), "https://example.test/docs/img/logo.png");
    Ok(())
}

#[test]
fn invalid_image_url_is_reported_for_empty_src() -> WebbyResult<()> {
    let base = web_url("https://example.test/")?;
    let result = resolve_image_url(&base, " ");

    assert!(matches!(result, Err(WebbyError::Url { .. })));
    Ok(())
}

#[test]
fn png_decode_works() -> WebbyResult<()> {
    let bytes = encoded_test_image(ImageFormat::Png)?;
    let decoded = decode_image(&bytes)?;

    assert_eq!((decoded.width, decoded.height), (2, 1));
    assert_eq!(&decoded.pixels[0..4], &[255, 0, 0, 255]);
    Ok(())
}

#[test]
fn jpeg_decode_works() -> WebbyResult<()> {
    let bytes = encoded_test_image(ImageFormat::Jpeg)?;
    let decoded = decode_image(&bytes)?;

    assert_eq!((decoded.width, decoded.height), (2, 1));
    assert_eq!(decoded.pixels.len(), 2 * 4);
    Ok(())
}

#[test]
fn image_map_uses_exact_src_key() {
    let mut map = ImageMap::empty();
    map.insert(resource("logo.png", "https://example.test/logo.png"));

    assert!(map.get("logo.png").is_some());
    assert!(map.get("./logo.png").is_none());
}

#[test]
fn undecodable_bytes_are_a_parse_error() {
    let result = decode_image(b"this is not an image");
    assert!(matches!(
        result,
        Err(WebbyError::Parse { message }) if message.starts_with("failed to")
    ));
}

#[test]
fn image_map_replaces_equal_keys_and_keeps_order() {
    let mut map = ImageMap::empty();
    map.insert(resource("b.png", "https://example.test/b1.png"));
    map.insert(resource("a.png", "https://example.test/a.png"));
    map.insert(resource("b.png", "https://example.test/b2.png"));

    assert_eq!(map.len(), 2);
    let srcs: Vec<&str> = map.iter().iter().map(|r| r.src.as_str()).collect();
    assert_eq!(srcs, vec!["a.png", "b.png"]);
    assert_eq!(
        map.get("b.png").map(|r| r.final_url.as_str()),
        Some("https://example.test/b2.png")
    );
}

#[test]
fn layout_image_map_carries_every_entry() {
    let mut map = ImageMap::empty();
    map.insert(resource("z.png", "https://example.test/z.png"));
    map.insert(resource("y.png", "https://example.test/y.png"));
    let layout = to_layout_image_map(&map);

    assert_eq!(layout.len(), 2);
    assert_eq!(
        layout.get("y.png").map(|r| r.final_url.as_str()),
        Some("https://example.test/y.png")
    );
    assert_eq!(layout.get("z.png").map(|r| r.image.pixels.clone()), Some(vec![1, 2, 3, 255]));
}

#[test]
fn image_references_follow_document_order_and_keep_empty_values() -> WebbyResult<()> {
    let document = parse_document(
        "<body><img src=\"a.png\"><img><p><img src=\"b.png\"></p><video poster=\"\"></video></body>",
    )?;
    let references: Vec<String> = collect_image_references(&document)
        .into_iter()
        .map(|reference| reference.src)
        .collect();
    assert_eq!(
        references,
        vec!["a.png".to_string(), "b.png".to_string(), String::new()]
    );
    Ok(())
}

#[test]
fn invalid_image_url_becomes_empty_page_image_map() -> WebbyResult<()> {
    let document = parse_document("<body><img src=\" \"></body>")?;
    let base = web_url("https://example.test/")?;
    let loader = EmptyLoader;

    let images = load_images(&document, &base, &loader);

    assert!(images.is_empty());
    Ok(())
}

#[test]
fn resource_loading_failure_falls_back_to_empty_image_map() -> WebbyResult<()> {
    let document = parse_document("<body><img src=\"logo.png\"></body>")?;
    let base = web_url("https://example.test/docs/")?;
    let loader = EmptyLoader;

    let images = load_images(&document, &base, &loader);

    assert!(images.is_empty());
    Ok(())
}

#[test]
fn decode_failure_falls_back_to_empty_image_map() -> WebbyResult<()> {
    let document = parse_document("<body><img src=\"logo.png\"></body>")?;
    let base = web_url("https://example.test/docs/")?;
    let loader = StaticBytesLoader {
        bytes: b"this is not an image".to_vec(),
    };

    let images = load_images(&document, &base, &loader);

    assert!(images.is_empty());
    Ok(())
}

#[test]
fn loaded_images_are_keyed_by_src_with_final_urls() -> WebbyResult<()> {
    let png = encoded_test_image(ImageFormat::Png)?;
    let document = parse_document(
        "<body><img src=\"pixel.png\"><img src=\"pixel.png\"><video poster=\"p.png\"></video></body>",
    )?;
    let base = web_url("https://example.test/docs/index.html")?;
    let loader = StaticBytesLoader { bytes: png };

    let images = load_images(&document, &base, &loader);

    assert_eq!(images.len(), 2);
    assert_eq!(
        images.get("pixel.png").map(|r| r.final_url.as_str()),
        Some("https://example.test/docs/pixel.png")
    );
    assert_eq!(images.get("p.png").map(|r| (r.image.width, r.image.height)), Some((2, 1)));
    Ok(())
}

#[test]
fn data_url_images_do_not_use_the_loader() -> WebbyResult<()> {
    let document = parse_document(
        "<body><img src=\"data:image/png;base64,not-base64!\"><img src=\"x.png\"></body>",
    )?;
    let base = web_url("https://example.test/")?;
    let images = load_images(&document, &base, &EmptyLoader);
    assert!(images.is_empty());
    Ok(())
}

#[test]
fn decodable_data_url_images_are_keyed_by_their_src() -> WebbyResult<()> {
    let png = encoded_test_image(ImageFormat::Png)?;
    let src = format!(
        "data:image/png;base64,{}",
        base64::engine::general_purpose::STANDARD.encode(&png)
    );
    let document = parse_document(&format!("<body><img src=\"{src}\"></body>"))?;
    let base = web_url("https://example.test/")?;

    let images = load_images(&document, &base, &EmptyLoader);

    assert_eq!(images.len(), 1);
    assert_eq!(images.get(&src).map(|r| r.final_url.as_str()), Some(src.as_str()));
    assert_eq!(images.get(&src).map(|r| (r.image.width, r.image.height)), Some((2, 1)));
    Ok(())
}

#[test]
fn unjoinable_image_src_is_a_url_error() -> WebbyResult<()> {
    let base = web_url("data:text/plain,x")?;
    let result = resolve_image_url(&base, "logo.png");

    assert!(matches!(
        result,
        Err(WebbyError::Url { message }) if message.starts_with("invalid image URL \"logo.png\": ")
    ));
    Ok(())
}
