use ui_composer::renderer::{
    get_quad_mesh, get_surface_format, index_upload, rgb_channels, upload_span, UploadSpan,
};
use ui_composer::splice::engine::Change;

#[test]
fn unchanged_length_uploads_the_range_only() {
    let change = Change { start: 2, end: 5, dirty_end: 5 };
    assert_eq!(upload_span(change, 80, 1048576), Some(UploadSpan { offset: 160, size: 240 }));
}

#[test]
fn resize_uploads_what_has_moved() {
    let change = Change { start: 2, end: 5, dirty_end: 7 };
    assert_eq!(upload_span(change, 80, 1048576), Some(UploadSpan { offset: 160, size: 400 }));
    let emptied = Change { start: 3, end: 3, dirty_end: 3 };
    assert_eq!(upload_span(emptied, 80, 1048576), Some(UploadSpan { offset: 240, size: 0 }));
}

#[test]
fn span_beyond_the_buffer_is_refused() {
    let change = Change { start: 0, end: 7, dirty_end: 7 };
    assert_eq!(upload_span(change, 80, 512), None);
    assert_eq!(upload_span(change, 80, 560), Some(UploadSpan { offset: 0, size: 560 }));
    let huge = Change { start: 0, end: usize::MAX, dirty_end: usize::MAX };
    assert_eq!(upload_span(huge, u64::MAX, u64::MAX), None);
    let backwards = Change { start: 3, end: 3, dirty_end: 2 };
    assert_eq!(upload_span(backwards, 80, 1048576), None);
}

#[test]
fn quad_mesh_is_two_triangles_over_four_corners() {
    let mesh = get_quad_mesh();
    assert_eq!(mesh.corners, vec![(0, 0), (1, 0), (1, 1), (0, 1)]);
    assert_eq!(mesh.indices, vec![0, 1, 2, 3, 0, 2]);
    assert!(mesh.indices.iter().all(|i| (*i as usize) < mesh.corners.len()));
}

#[test]
fn index_bytes_are_two_per_index() {
    let upload = index_upload(&[0, 1, 2, 3, 0, 0x0102]).unwrap();
    assert_eq!(upload.count, 6);
    assert_eq!(upload.bytes.len(), 12);
    let low_first: Vec<u8> = vec![0, 0, 1, 0, 2, 0, 3, 0, 0, 0, 2, 1];
    let high_first: Vec<u8> = vec![0, 0, 0, 1, 0, 2, 0, 3, 0, 0, 1, 2];
    assert!(upload.bytes == low_first || upload.bytes == high_first);
    let mesh = get_quad_mesh();
    assert_eq!(index_upload(&mesh.indices).unwrap().count, 6);
    assert_eq!(index_upload(&[]).unwrap().bytes, Vec::<u8>::new());
}

#[test]
fn colour_splits_into_channels() {
    assert_eq!(rgb_channels(0xdedede), (0xde, 0xde, 0xde));
    assert_eq!(rgb_channels(0xee2244), (0xee, 0x22, 0x44));
    assert_eq!(rgb_channels(0x00aaff), (0x00, 0xaa, 0xff));
    assert_eq!(rgb_channels(0xff_123456), (0x12, 0x34, 0x56));
    assert_eq!(rgb_channels(0), (0, 0, 0));
}

#[test]
fn first_srgb_format_is_chosen() {
    assert_eq!(get_surface_format(&[false, true, true]), 1);
    assert_eq!(get_surface_format(&[true]), 0);
    assert_eq!(get_surface_format(&[false, false]), 0);
    assert_eq!(get_surface_format(&[false, false, true]), 2);
}
