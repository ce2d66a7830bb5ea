use lixel::Canvases;
use lixel::CanvasError;
use lixel::Pixel;
use lixel::ReqCanvas;
use lixel::StorageError;
use lixel::create_canvas;
use lixel::create_canvas_with_ids;
use lixel::delete_canvas;
use lixel::get_canvas_content;
use lixel::load_canvases;
use lixel::save_canvases;
use lixel::update_canvas_content;
use lixel::update_canvases;

fn grid(rows: &[&[&str]]) -> Vec<Vec<String>> {
    rows.iter().map(|r| r.iter().map(|c| String::from(*c)).collect()).collect()
}

fn empty() -> Canvases {
    Canvases::new(Vec::new())
}

#[test]
fn create_then_get_returns_same_grid() {
    let mut c = empty();
    let g = grid(&[&["#a", "#b"], &["#c", "#d"]]);
    let id = create_canvas(&mut c, ReqCanvas { content: g.clone() });
    assert_eq!(get_canvas_content(&c, id), Ok(g));
}

#[test]
fn delete_then_get_not_found_and_delete_is_idempotent() {
    let mut c = empty();
    let g = grid(&[&["#fff"]]);
    let id = create_canvas_with_ids(&mut c, ReqCanvas { content: g }, &vec![5]).unwrap();
    assert_eq!(id, 5);
    delete_canvas(&mut c, 5);
    assert_eq!(get_canvas_content(&c, 5), Err(CanvasError::NotFound));
    delete_canvas(&mut c, 5);
    assert_eq!(get_canvas_content(&c, 5), Err(CanvasError::NotFound));
}

#[test]
fn patch_changes_only_target_cell() {
    let mut c = empty();
    let g = grid(&[&["#00", "#01"], &["#10", "#11"]]);
    let id = create_canvas(&mut c, ReqCanvas { content: g });
    let r = update_canvas_content(
        &mut c,
        id,
        &vec![Pixel { x: 0, y: 1, color: String::from("#f00") }],
    );
    assert_eq!(r, Ok(id));
    let expected = grid(&[&["#00", "#01"], &["#f00", "#11"]]);
    assert_eq!(get_canvas_content(&c, id), Ok(expected));
}

#[test]
fn patch_later_pixel_overrides_earlier() {
    let mut c = empty();
    let g = grid(&[&["#a", "#a"], &["#a", "#a"]]);
    let id = create_canvas(&mut c, ReqCanvas { content: g });
    let r = update_canvas_content(
        &mut c,
        id,
        &vec![
            Pixel { x: 1, y: 1, color: String::from("#000000") },
            Pixel { x: 1, y: 1, color: String::from("#FFFFFF") },
        ],
    );
    assert_eq!(r, Ok(id));
    let got = get_canvas_content(&c, id).unwrap();
    assert_eq!(got[1][1], "#FFFFFF");
}

#[test]
fn patch_out_of_bounds_rejected_and_grid_unchanged() {
    let mut c = empty();
    let g = grid(&[
        &["#w", "#w", "#w", "#w"],
        &["#w", "#w", "#w", "#w"],
        &["#w", "#w", "#w", "#w"],
        &["#w", "#w", "#w", "#w"],
    ]);
    let id = create_canvas(&mut c, ReqCanvas { content: g.clone() });
    let r = update_canvas_content(
        &mut c,
        id,
        &vec![
            Pixel { x: 0, y: 0, color: String::from("#f00") },
            Pixel { x: 5, y: 5, color: String::from("#f00") },
        ],
    );
    assert_eq!(r, Err(CanvasError::OutOfBounds));
    assert_eq!(get_canvas_content(&c, id), Ok(g));
}

#[test]
fn patch_missing_canvas_not_found() {
    let mut c = empty();
    let r = update_canvas_content(
        &mut c,
        42,
        &vec![Pixel { x: 0, y: 0, color: String::from("#f00") }],
    );
    assert_eq!(r, Err(CanvasError::NotFound));
}

#[test]
fn create_retries_a_colliding_candidate() {
    let mut c = empty();
    let g = grid(&[&["#fff"]]);
    let first = create_canvas_with_ids(&mut c, ReqCanvas { content: g.clone() }, &vec![7]);
    assert_eq!(first, Some(7));
    // the first candidate collides and must be rejected, the next one taken
    let second = create_canvas_with_ids(&mut c, ReqCanvas { content: g.clone() }, &vec![7, 9]);
    assert_eq!(second, Some(9));
    let none = create_canvas_with_ids(&mut c, ReqCanvas { content: g }, &vec![7, 9]);
    assert_eq!(none, None);
}

#[test]
fn created_ids_are_distinct() {
    let mut c = empty();
    let mut ids: Vec<u32> = Vec::new();
    for _ in 0..8 {
        let g = grid(&[&["#fff"]]);
        ids.push(create_canvas(&mut c, ReqCanvas { content: g }));
    }
    for i in 0..ids.len() {
        for j in 0..i {
            assert_ne!(ids[i], ids[j]);
        }
    }
}

#[test]
fn scenario_create_patch_get() {
    let mut c = empty();
    let g = grid(&[&["#fff", "#fff"], &["#fff", "#fff"]]);
    let id = create_canvas_with_ids(&mut c, ReqCanvas { content: g }, &vec![7]).unwrap();
    assert_eq!(id, 7);
    let r = update_canvas_content(
        &mut c,
        7,
        &vec![Pixel { x: 0, y: 1, color: String::from("#f00") }],
    );
    assert_eq!(r, Ok(7));
    let expected = grid(&[&["#fff", "#fff"], &["#f00", "#fff"]]);
    assert_eq!(get_canvas_content(&c, 7), Ok(expected));
}

#[test]
fn save_empty_collection_document() {
    let doc = save_canvases(&empty());
    assert_eq!(doc, "{\"canvases\":[]}");
}

#[test]
fn save_one_canvas_exact_document() {
    let mut c = empty();
    let g = grid(&[&["#fff"]]);
    create_canvas_with_ids(&mut c, ReqCanvas { content: g }, &vec![7]).unwrap();
    let doc = save_canvases(&c);
    assert_eq!(doc, "{\"canvases\":[{\"id\":7,\"content\":[[\"#fff\"]]}]}");
}

#[test]
fn save_escapes_quotes_and_backslashes() {
    let mut c = empty();
    let g = grid(&[&["a\"b\\c"]]);
    create_canvas_with_ids(&mut c, ReqCanvas { content: g }, &vec![1]).unwrap();
    let doc = save_canvases(&c);
    assert_eq!(doc, "{\"canvases\":[{\"id\":1,\"content\":[[\"a\\\"b\\\\c\"]]}]}");
}

#[test]
fn load_undoes_save() {
    let mut c = empty();
    create_canvas_with_ids(&mut c, ReqCanvas { content: grid(&[&["#ab", "x\"y\\z"]]) }, &vec![3])
        .unwrap();
    create_canvas_with_ids(
        &mut c,
        ReqCanvas { content: grid(&[&["#1", "#2"], &["#3", "#4"]]) },
        &vec![12345],
    )
        .unwrap();
    let doc = save_canvases(&c);
    let back = load_canvases(&doc).unwrap();
    assert_eq!(get_canvas_content(&back, 3), Ok(grid(&[&["#ab", "x\"y\\z"]])));
    assert_eq!(get_canvas_content(&back, 12345), Ok(grid(&[&["#1", "#2"], &["#3", "#4"]])));
    assert_eq!(save_canvases(&back), doc);
}

#[test]
fn load_reads_canonical_document() {
    let back = load_canvases("{\"canvases\":[{\"id\":1,\"content\":[[\"#abc\",\"x\"],[\"y\",\"z\"]]}]}")
        .unwrap();
    assert_eq!(get_canvas_content(&back, 1), Ok(grid(&[&["#abc", "x"], &["y", "z"]])));
}

#[test]
fn load_rejects_malformed_documents() {
    assert_eq!(load_canvases("").unwrap_err(), StorageError::Corrupt);
    assert_eq!(load_canvases("not a document").unwrap_err(), StorageError::Corrupt);
    assert_eq!(load_canvases("{\"canvases\":").unwrap_err(), StorageError::Corrupt);
    // a truncated save must never be readable
    let doc = save_canvases(&{
        let mut c = empty();
        create_canvas_with_ids(&mut c, ReqCanvas { content: grid(&[&["#fff"]]) }, &vec![7]);
        c
    });
    for cut in 0..doc.len() {
        let truncated = &doc[..cut];
        assert_eq!(load_canvases(truncated).unwrap_err(), StorageError::Corrupt);
    }
}

#[test]
fn load_rejects_noncanonical_documents() {
    // same data, extra whitespace: not the serialization of any collection
    let spaced = "{\"canvases\": []}";
    assert_eq!(load_canvases(spaced).unwrap_err(), StorageError::Corrupt);
    // leading zero in an id
    let zero = "{\"canvases\":[{\"id\":07,\"content\":[]}]}";
    assert_eq!(load_canvases(zero).unwrap_err(), StorageError::Corrupt);
}

#[test]
fn contains_id_reports_membership() {
    let mut c = empty();
    assert!(!lixel::contains_id(&c, 7));
    create_canvas_with_ids(&mut c, ReqCanvas { content: grid(&[&["#fff"]]) }, &vec![7]).unwrap();
    assert!(lixel::contains_id(&c, 7));
    assert!(!lixel::contains_id(&c, 8));
}

#[test]
fn empty_grids_round_trip() {
    let mut c = empty();
    create_canvas_with_ids(&mut c, ReqCanvas { content: Vec::new() }, &vec![1]).unwrap();
    create_canvas_with_ids(&mut c, ReqCanvas { content: grid(&[&[], &[]]) }, &vec![2]).unwrap();
    let doc = save_canvases(&c);
    assert_eq!(
        doc,
        "{\"canvases\":[{\"id\":1,\"content\":[]},{\"id\":2,\"content\":[[],[]]}]}"
    );
    let back = load_canvases(&doc).unwrap();
    assert_eq!(get_canvas_content(&back, 1), Ok(Vec::new()));
    assert_eq!(get_canvas_content(&back, 2), Ok(grid(&[&[], &[]])));
}

#[test]
fn id_bounds_round_trip() {
    let mut c = empty();
    create_canvas_with_ids(&mut c, ReqCanvas { content: grid(&[&["#0"]]) }, &vec![0]).unwrap();
    create_canvas_with_ids(&mut c, ReqCanvas { content: grid(&[&["#m"]]) }, &vec![u32::MAX])
        .unwrap();
    let doc = save_canvases(&c);
    assert_eq!(
        doc,
        "{\"canvases\":[{\"id\":0,\"content\":[[\"#0\"]]},{\"id\":4294967295,\"content\":[[\"#m\"]]}]}"
    );
    let back = load_canvases(&doc).unwrap();
    assert_eq!(get_canvas_content(&back, 0), Ok(grid(&[&["#0"]])));
    assert_eq!(get_canvas_content(&back, u32::MAX), Ok(grid(&[&["#m"]])));
}

#[test]
fn update_canvases_runs_one_transaction() {
    let mut c = empty();
    create_canvas_with_ids(&mut c, ReqCanvas { content: grid(&[&["#fff"]]) }, &vec![7]).unwrap();
    let doc = save_canvases(&c);
    let after = update_canvases(&doc, |mut col: Canvases| {
        delete_canvas(&mut col, 7);
        col
    })
        .unwrap();
    assert_eq!(after, "{\"canvases\":[]}");
    assert_eq!(update_canvases("garbage", |col: Canvases| col).unwrap_err(), StorageError::Corrupt);
}
