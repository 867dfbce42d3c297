use crystald::error::SchemeError;
use crystald::model::Role;
use crystald::request::{decode_open, decode_role, OpenRequest, O_CREAT, O_RDONLY, O_RDWR, O_WRONLY};

#[test]
fn flags_have_the_values_of_the_system_interface() {
    assert_eq!(O_RDONLY, syscall::flag::O_RDONLY);
    assert_eq!(O_WRONLY, syscall::flag::O_WRONLY);
    assert_eq!(O_RDWR, syscall::flag::O_RDWR);
    assert_eq!(O_CREAT, syscall::flag::O_CREAT);
}

#[test]
fn error_codes_have_the_values_of_the_system_interface() {
    assert_eq!(SchemeError::Einval.errno(), syscall::error::EINVAL);
    assert_eq!(SchemeError::Enoent.errno(), syscall::error::ENOENT);
    assert_eq!(SchemeError::Ebadf.errno(), syscall::error::EBADF);
    assert_eq!(SchemeError::Einval.errno(), 22);
    assert_eq!(SchemeError::Enoent.errno(), 2);
    assert_eq!(SchemeError::Ebadf.errno(), 9);
}

#[test]
fn role_follows_the_access_flags() {
    assert_eq!(decode_role(O_RDONLY), Some(Role::Sink));
    assert_eq!(decode_role(O_WRONLY), Some(Role::Source));
    assert_eq!(decode_role(O_RDWR), None);
    assert_eq!(decode_role(0), None);
    assert_eq!(decode_role(O_CREAT | O_RDONLY), Some(Role::Sink));
    assert_eq!(decode_role(O_CREAT | O_WRONLY | 0x0004_0000), Some(Role::Source));
}

#[test]
fn decode_create() {
    match decode_open(b"rms_sink?buf_sz=256", O_CREAT | O_RDONLY) {
        Ok(OpenRequest::Create { name, role, len }) => {
            assert_eq!(name, b"rms_sink");
            assert_eq!(role, Role::Sink);
            assert_eq!(len, 256);
        }
        other => panic!("{:?}", other),
    }
    match decode_open(b"sine_source?gain=1&buf_sz=+16", O_CREAT | O_WRONLY) {
        Ok(OpenRequest::Create { name, role, len }) => {
            assert_eq!(name, b"sine_source");
            assert_eq!(role, Role::Source);
            assert_eq!(len, 16);
        }
        other => panic!("{:?}", other),
    }
}

#[test]
fn decode_attach_ignores_access_flags_and_query() {
    for flags in [0, O_RDONLY, O_WRONLY, O_RDWR] {
        match decode_open(b"rms_sink", flags) {
            Ok(OpenRequest::Attach { name }) => assert_eq!(name, b"rms_sink"),
            other => panic!("{:?}", other),
        }
    }
    match decode_open(b"rms_sink?buf_sz=oops", O_WRONLY) {
        Ok(OpenRequest::Attach { name }) => assert_eq!(name, b"rms_sink"),
        other => panic!("{:?}", other),
    }
}

#[test]
fn decode_refuses_with_einval() {
    let refused: [(&[u8], usize); 9] = [
        (b"a", O_CREAT | O_RDONLY),
        (b"a?buf_sz=1", O_CREAT),
        (b"a?buf_sz=1", O_CREAT | O_RDWR),
        (b"a?buf_sz=x", O_CREAT | O_RDONLY),
        (b"a?BUF_SZ=1", O_CREAT | O_RDONLY),
        (b"a?buf_sz=1&buf_sz=1", O_CREAT | O_RDONLY),
        (b"a?", 0),
        (b"a?k", 0),
        (b"\xff", 0),
    ];
    for (path, flags) in refused {
        match decode_open(path, flags) {
            Err(error) => assert_eq!(error, SchemeError::Einval),
            other => panic!("{:?}", other),
        }
    }
}
