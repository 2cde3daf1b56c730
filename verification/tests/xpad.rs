use smalldeck::xpad::{
    device_keys, fkey_label, is_fkey, layout_dims, read_mapped_fkeys, read_matrix, FKEY_MAX,
    FKEY_MIN,
};

#[test]
fn fkey_labels_of_trigger_keys() {
    assert_eq!(fkey_label(0x68), "F13");
    assert_eq!(fkey_label(0x6A), "F15");
    assert_eq!(fkey_label(0x6F), "F20");
    assert_eq!(fkey_label(0x73), "F24");
    assert_eq!(FKEY_MIN, 0x68);
    assert_eq!(FKEY_MAX, 0x73);
}

#[test]
fn fkey_labels_of_other_keys_are_hex() {
    assert_eq!(fkey_label(0x67), "0x67");
    assert_eq!(fkey_label(0x74), "0x74");
    assert_eq!(fkey_label(0x00), "0x00");
    assert_eq!(fkey_label(0xAB), "0xAB");
    assert_eq!(fkey_label(0xFF), "0xFF");
}

#[test]
fn is_fkey_bounds() {
    assert!(!is_fkey(0x67));
    assert!(is_fkey(0x68));
    assert!(is_fkey(0x73));
    assert!(!is_fkey(0x74));
}

#[test]
fn labels_are_distinct() {
    let mut labels: Vec<String> = (0..=255u8).map(fkey_label).collect();
    labels.sort();
    labels.dedup();
    assert_eq!(labels.len(), 256);
}

#[test]
fn mapped_fkeys_rejects_bad_header() {
    let err = read_mapped_fkeys(&[0x33, 0x00]).unwrap_err();
    assert_eq!(err, "Unexpected response from XPAD.");
    let err = read_mapped_fkeys(&[0x32, 0x00, 0x00]).unwrap_err();
    assert_eq!(err, "Unexpected response from XPAD.");
}

#[test]
fn mapped_fkeys_sorted_and_deduplicated() {
    // {gpio, hid, mod, type} records
    let resp = [
        0x33, 0x00, 5, //
        1, 0x6B, 0, 0, // F16
        2, 0x04, 0, 0, // 'a', not a trigger
        3, 0x68, 0, 0, // F13
        4, 0x6B, 0, 0, // F16 again
        5, 0x73, 0, 0, // F24
    ];
    assert_eq!(read_mapped_fkeys(&resp).unwrap(), vec![0x68, 0x6B, 0x73]);
}

#[test]
fn mapped_fkeys_stops_at_end_of_response() {
    // count says 4 but only two records (and the gpio of a third) are there
    let resp = [0x33, 0x00, 4, 1, 0x70, 0, 0, 2, 0x69, 0, 0, 3];
    assert_eq!(read_mapped_fkeys(&resp).unwrap(), vec![0x69, 0x70]);
    // count 0 ignores the records
    let resp = [0x33, 0x00, 0, 1, 0x70, 0, 0];
    assert_eq!(read_mapped_fkeys(&resp).unwrap(), Vec::<u8>::new());
}

#[test]
fn layout_dims_reads_header() {
    assert_eq!(layout_dims(&[0x32, 0x00, 2, 3]).unwrap(), (2, 3));
    assert_eq!(
        layout_dims(&[0x32, 0x00, 2]).unwrap_err(),
        "Unexpected layout response from XPAD."
    );
    assert_eq!(
        layout_dims(&[0x33, 0x00, 2, 3]).unwrap_err(),
        "Unexpected layout response from XPAD."
    );
}

fn layout(rows: u8, cols: u8, gpios: &[&[u8]]) -> Vec<u8> {
    let mut lay = vec![0x32, 0x00, rows, cols];
    lay.extend(std::iter::repeat(0xFF).take(80));
    for (r, row) in gpios.iter().enumerate() {
        for (c, g) in row.iter().enumerate() {
            lay[4 + r * 10 + c] = *g;
        }
    }
    lay
}

#[test]
fn matrix_errors() {
    let keys = [0x33, 0x00, 0];
    assert_eq!(
        read_matrix(&[0x31, 0, 1, 1], &keys).err().unwrap(),
        "Unexpected layout response from XPAD."
    );
    assert_eq!(
        read_matrix(&layout(1, 1, &[]), &[0x33, 0x00]).err().unwrap(),
        "Unexpected key-map response from XPAD."
    );
}

#[test]
fn matrix_cells() {
    let lay = layout(2, 3, &[&[5, 6, 0xFF], &[7, 0xFF, 8]]);
    let keys = [
        0x33, 0x00, 4, //
        5, 0x68, 0, 0, // gpio 5 -> F13
        6, 0x04, 0, 0, // gpio 6 -> 'a'
        8, 0x69, 0, 0, // gpio 8 -> F14
        8, 0x72, 0, 0, // gpio 8 -> F23 (later record wins)
    ];
    let m = read_matrix(&lay, &keys).ok().unwrap();
    assert_eq!((m.rows, m.cols), (2, 3));
    assert_eq!(m.cells.len(), 6);
    let pos: Vec<&str> = m.cells.iter().map(|c| c.pos.as_str()).collect();
    assert_eq!(pos, vec!["A1", "A2", "A3", "B1", "B2", "B3"]);
    let occ: Vec<bool> = m.cells.iter().map(|c| c.occupied).collect();
    assert_eq!(occ, vec![true, true, false, true, false, true]);
    let fk: Vec<Option<&str>> = m.cells.iter().map(|c| c.fkey.as_deref()).collect();
    assert_eq!(fk, vec![Some("F13"), None, None, None, None, Some("F23")]);
    assert_eq!((m.cells[4].row, m.cells[4].col), (1, 1));
}

#[test]
fn matrix_short_layout_marks_cells_empty() {
    // rows/cols claim 1x2 but the response ends after the first gpio
    let lay = [0x32, 0x00, 1, 2, 9];
    let keys = [0x33, 0x00, 1, 9, 0x6C, 0, 0];
    let m = read_matrix(&lay, &keys).ok().unwrap();
    assert_eq!(m.cells.len(), 2);
    assert_eq!(m.cells[0].fkey.as_deref(), Some("F17"));
    assert!(!m.cells[1].occupied);
    assert_eq!(m.cells[1].fkey, None);
}

#[test]
fn matrix_two_digit_columns() {
    let lay = layout(1, 12, &[]);
    let keys = [0x33, 0x00, 0];
    let m = read_matrix(&lay, &keys).ok().unwrap();
    assert_eq!(m.cells[9].pos, "A10");
    assert_eq!(m.cells[11].pos, "A12");
    assert!(m.cells.iter().all(|c| !c.occupied));
}

#[test]
fn device_keys_label_each_hid() {
    let ks = device_keys(&[0x68, 0x71]);
    assert_eq!(ks.len(), 2);
    assert_eq!((ks[0].hid, ks[0].label.as_str()), (0x68, "F13"));
    assert_eq!((ks[1].hid, ks[1].label.as_str()), (0x71, "F22"));
}
