use cosmos_driver::ffi::FfiBytes;
use cosmos_driver::ffi::FfiResult;
use cosmos_driver::ffi::FfiSlice;
use cosmos_driver::ffi::ResultCode;
use cosmos_driver::ffi::string_from_view;
use cosmos_driver::Error;
use cosmos_driver::Pipeline;
use cosmos_driver::PipelineItem;

#[test]
fn result_code_values() {
    assert_eq!(ResultCode::Success.code(), 0);
    assert_eq!(ResultCode::Empty.code(), 1);
    assert_eq!(ResultCode::InvalidArgument.code(), -1);
    assert_eq!(ResultCode::InvalidString.code(), -2);
    assert_eq!(ResultCode::InvalidJson.code(), -3);
    assert_eq!(ResultCode::NullPointer.code(), -4);
    assert_eq!(ResultCode::UnalignedPointer.code(), -5);
    assert_eq!(ResultCode::PartitionDoesNotExist.code(), -6);
}

#[test]
fn result_code_from_error() {
    assert_eq!(ResultCode::from(Error::InvalidJson), ResultCode::InvalidJson);
    assert_eq!(
        ResultCode::from(Error::PartitionDoesNotExist),
        ResultCode::PartitionDoesNotExist
    );
}

#[test]
fn tagged_result_payload_only_on_success() {
    let ok: FfiResult<u32> = FfiResult::ok(7);
    assert_eq!(ok.status(), ResultCode::Success);
    assert_eq!(ok.into_value(), Some(7));

    let none: FfiResult<u32> = FfiResult::none();
    assert_eq!(none.status(), ResultCode::Empty);
    assert_eq!(none.into_value(), None);

    let err: FfiResult<u32> = FfiResult::err(ResultCode::NullPointer);
    assert_eq!(err.status(), ResultCode::NullPointer);
    assert_eq!(err.into_value(), None);
}

#[test]
fn tagged_result_conversions() {
    let from_some = FfiResult::from(Some(3u8));
    assert_eq!(from_some.status(), ResultCode::Success);
    assert_eq!(from_some.into_value(), Some(3));

    let from_none = FfiResult::from(None::<u8>);
    assert_eq!(from_none.status(), ResultCode::Empty);
    assert_eq!(from_none.into_value(), None);

    let from_ok = FfiResult::from(Ok::<u8, Error>(5));
    assert_eq!(from_ok.status(), ResultCode::Success);
    assert_eq!(from_ok.into_value(), Some(5));

    let from_err = FfiResult::from(Err::<u8, Error>(Error::PartitionDoesNotExist));
    assert_eq!(from_err.status(), ResultCode::PartitionDoesNotExist);
    assert_eq!(from_err.into_value(), None);
}

#[test]
fn view_validation_codes() {
    let null = FfiSlice { data: 0, len: 4 };
    assert_eq!(null.validate(4), Err(ResultCode::NullPointer));

    let unaligned = FfiSlice { data: 3, len: 4 };
    assert_eq!(unaligned.validate(4), Err(ResultCode::UnalignedPointer));

    let good = FfiSlice { data: 8, len: 4 };
    assert_eq!(good.validate(4), Ok(()));

    // byte views only need alignment one
    let bytes = FfiSlice { data: 9, len: 1 };
    assert_eq!(bytes.validate(1), Ok(()));
}

#[test]
fn view_text_decoding() {
    assert_eq!(string_from_view(b"p1"), Ok("p1".to_string()));
    let accented = [0xC3u8, 0xA9u8];
    assert_eq!(string_from_view(&accented), Ok("\u{e9}".to_string()));
    let broken = [0xFFu8, 0x20u8];
    assert_eq!(string_from_view(&broken), Err(ResultCode::InvalidString));
}

#[test]
fn buffer_release_cycles_return_the_issued_bytes() {
    let mut pipeline = Pipeline::new(vec!["p".to_string()]);
    for round in 0..3u64 {
        let payload = format!("{{\"round\":{}}}", round).into_bytes();
        pipeline
            .enqueue_items(
                "p",
                vec![PipelineItem {
                    order: round as usize,
                    payload,
                }],
            )
            .unwrap();
        let issued = pipeline.next_item_raw().unwrap().unwrap();
        let buffer = FfiBytes::new(issued.clone());
        assert_eq!(buffer.len(), issued.len());
        // each issued buffer is released exactly once, handing the same
        // bytes back
        assert_eq!(buffer.into_vec(), issued);
    }
    assert_eq!(pipeline.next_item_raw(), Ok(None));
}
