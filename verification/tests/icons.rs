use smalldeck::icons::{app_icon_data_url, base64, icns_file_name};

#[test]
fn base64_rfc4648_vectors() {
    assert_eq!(base64(b""), "");
    assert_eq!(base64(b"f"), "Zg==");
    assert_eq!(base64(b"fo"), "Zm8=");
    assert_eq!(base64(b"foo"), "Zm9v");
    assert_eq!(base64(b"foob"), "Zm9vYg==");
    assert_eq!(base64(b"fooba"), "Zm9vYmE=");
    assert_eq!(base64(b"foobar"), "Zm9vYmFy");
}

#[test]
fn base64_all_alphabet() {
    assert_eq!(base64(&[0x00, 0x10, 0x83, 0x10, 0x51, 0x87]), "ABCDEFGH");
    assert_eq!(base64(&[0xFB, 0xFF, 0xBF]), "+/+/");
    assert_eq!(base64(&[0xFF, 0xFF]), "//8=");
    assert_eq!(base64(&[0x89, 0x50, 0x4E, 0x47]), "iVBORw==");
}

#[test]
fn base64_length() {
    for n in 0..20usize {
        let data = vec![0xA5u8; n];
        assert_eq!(base64(&data).len(), 4 * ((n + 2) / 3));
    }
}

#[test]
fn data_url() {
    assert_eq!(
        app_icon_data_url(Some(vec![0x89, 0x50, 0x4E, 0x47])).unwrap(),
        "data:image/png;base64,iVBORw=="
    );
    assert_eq!(app_icon_data_url(None), None);
}

#[test]
fn icns_names() {
    assert_eq!(icns_file_name("AppIcon\n").unwrap(), "AppIcon.icns");
    assert_eq!(icns_file_name("  Safari.icns ").unwrap(), "Safari.icns");
    assert_eq!(icns_file_name(".icns").unwrap(), ".icns");
    assert_eq!(icns_file_name("icns").unwrap(), "icns.icns");
    assert_eq!(icns_file_name(" \n"), None);
}

#[test]
fn base64_distinct_inputs_distinct_outputs() {
    let inputs: Vec<Vec<u8>> = vec![
        vec![],
        vec![0],
        vec![0, 0],
        vec![0, 0, 0],
        vec![0, 0, 0, 0],
        vec![1],
        vec![0, 1],
        vec![255, 255, 255],
    ];
    let mut outs: Vec<String> = inputs.iter().map(|d| base64(d)).collect();
    outs.sort();
    outs.dedup();
    assert_eq!(outs.len(), inputs.len());
}
