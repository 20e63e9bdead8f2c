use mousecam::report::{
    get_report_setup, laser_upload_args, pad_to_blocks, reply_buffer, set_report_setup,
    SetReportArgs, UploadError, MODE_SPEED_BURST, MODE_UPLOAD, MODE_WRITE_PORT, UPLOAD_PORT,
};

#[test]
fn bare_report_is_eight_bytes() {
    assert_eq!(SetReportArgs::new(MODE_SPEED_BURST).to_buf(), vec![2, 12, 0, 0, 0, 0, 0, 0]);
}

#[test]
fn write_port_report() {
    let buf = SetReportArgs::new(MODE_WRITE_PORT).args2(0x30, 0x44).to_buf();
    assert_eq!(buf, vec![2, 7, 0x30, 0x44, 0, 0, 0, 0]);
}

#[test]
fn args_replace_earlier_args() {
    let buf = SetReportArgs::new(3).args4(1, 2, 3, 4).args1(9).to_buf();
    assert_eq!(buf, vec![2, 3, 9, 0, 0, 0, 0, 0]);
    let buf = SetReportArgs::new(3).args3(0xaa, 0xbb, 9).to_buf();
    assert_eq!(buf, vec![2, 3, 0xaa, 0xbb, 9, 0, 0, 0]);
}

#[test]
fn report_with_data_is_padded_to_blocks() {
    let data = [1u8, 2, 3];
    let buf = SetReportArgs::new(15).args4(1, 0x35, 0, 0).set_sendbuf(&data).to_buf();
    assert_eq!(buf, vec![2, 15, 1, 0x35, 0, 0, 0, 0, 1, 2, 3, 0, 0, 0, 0, 0]);
}

#[test]
fn report_with_block_sized_data_is_not_padded() {
    let data = [7u8; 8];
    let buf = SetReportArgs::new(15).set_sendbuf(&data).to_buf();
    assert_eq!(buf.len(), 16);
    assert_eq!(&buf[8..], &data);
}

#[test]
fn report_with_empty_data() {
    let data: [u8; 0] = [];
    let buf = SetReportArgs::new(4).set_sendbuf(&data).to_buf();
    assert_eq!(buf, vec![2, 4, 0, 0, 0, 0, 0, 0]);
}

#[test]
fn padding_fills_to_multiple_of_eight() {
    let mut v = vec![1u8; 10];
    pad_to_blocks(&mut v);
    assert_eq!(v.len(), 16);
    assert_eq!(&v[10..], &[0u8; 6]);
    let mut w = vec![1u8; 8];
    pad_to_blocks(&mut w);
    assert_eq!(w, vec![1u8; 8]);
    let mut e: Vec<u8> = vec![];
    pad_to_blocks(&mut e);
    assert!(e.is_empty());
}

#[test]
fn upload_args_count_blocks() {
    let mut rom = vec![0xabu8; 20];
    pad_to_blocks(&mut rom);
    let args = laser_upload_args(&rom).unwrap();
    let buf = args.to_buf();
    assert_eq!(&buf[..8], &[2, MODE_UPLOAD, 3, UPLOAD_PORT, 0, 0, 0, 0]);
    assert_eq!(buf.len(), 32);
    assert_eq!(&buf[8..28], &[0xabu8; 20][..]);
}

#[test]
fn upload_of_255_blocks_fits() {
    let rom = vec![1u8; 255 * 8];
    let buf = laser_upload_args(&rom).unwrap().to_buf();
    assert_eq!(buf[2], 255);
}

#[test]
fn upload_of_256_blocks_is_refused() {
    let rom = vec![1u8; 256 * 8];
    assert!(matches!(laser_upload_args(&rom), Err(UploadError::TooManyBlocks)));
}

#[test]
fn control_setups() {
    let s = set_report_setup(2, 1);
    assert_eq!((s.request_type, s.request, s.value, s.index), (0x21, 0x9, 0x302, 1));
    let g = get_report_setup(5, 0);
    assert_eq!((g.request_type, g.request, g.value, g.index), (0xa1, 0x1, 0x305, 0));
}

#[test]
fn reply_buffer_starts_with_report_id() {
    let b = reply_buffer(8);
    assert_eq!(b, vec![5, 0, 0, 0, 0, 0, 0, 0]);
    assert_eq!(reply_buffer(1), vec![5]);
    assert_eq!(reply_buffer(2048).len(), 2048);
}
