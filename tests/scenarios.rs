use bytes::BytesMut;
use simple_redis::{next_step, Backend, RespEncode, Step};

/// Feeds one request's bytes to the connection logic and gives the reply's
/// bytes.
fn exchange(backend: &Backend, request: &[u8]) -> Vec<u8> {
    let mut buf = BytesMut::from(request);
    match next_step(&mut buf, backend) {
        Step::Reply(frame) => {
            assert!(buf.is_empty());
            frame.encode()
        }
        other => panic!("unexpected step: {:?}", other),
    }
}

#[test]
fn scenario_set_then_get() {
    let backend = Backend::new();
    assert_eq!(
        exchange(&backend, b"*3\r\n$3\r\nSET\r\n$5\r\nhello\r\n$5\r\nworld\r\n"),
        b"+OK\r\n"
    );
    assert_eq!(exchange(&backend, b"*2\r\n$3\r\nGET\r\n$5\r\nhello\r\n"), b"$5\r\nworld\r\n");
}

#[test]
fn scenario_get_missing() {
    let backend = Backend::new();
    assert_eq!(exchange(&backend, b"*2\r\n$3\r\nGET\r\n$7\r\nmissing\r\n"), b"_\r\n");
}

#[test]
fn scenario_hset_then_hget() {
    let backend = Backend::new();
    assert_eq!(
        exchange(&backend, b"*4\r\n$4\r\nHSET\r\n$1\r\nm\r\n$1\r\nf\r\n$1\r\nv\r\n"),
        b"+OK\r\n"
    );
    assert_eq!(
        exchange(&backend, b"*3\r\n$4\r\nHGET\r\n$1\r\nm\r\n$1\r\nf\r\n"),
        b"$1\r\nv\r\n"
    );
    assert_eq!(exchange(&backend, b"*3\r\n$4\r\nHGET\r\n$1\r\nm\r\n$1\r\ng\r\n"), b"_\r\n");
}

#[test]
fn scenario_hmget() {
    let backend = Backend::new();
    exchange(&backend, b"*4\r\n$4\r\nHSET\r\n$1\r\nm\r\n$1\r\nf\r\n$1\r\nv\r\n");
    assert_eq!(
        exchange(&backend, b"*5\r\n$5\r\nHMGET\r\n$1\r\nm\r\n$1\r\nf\r\n$1\r\ng\r\n$1\r\nf\r\n"),
        b"*3\r\n$1\r\nv\r\n_\r\n$1\r\nv\r\n"
    );
}

#[test]
fn scenario_sadd_twice() {
    let backend = Backend::new();
    let request = b"*4\r\n$4\r\nSADD\r\n$1\r\ns\r\n$1\r\na\r\n$1\r\nb\r\n";
    assert_eq!(exchange(&backend, request), b":+2\r\n");
    assert_eq!(exchange(&backend, request), b":+0\r\n");
}

#[test]
fn scenario_echo() {
    let backend = Backend::new();
    assert_eq!(exchange(&backend, b"*2\r\n$4\r\nECHO\r\n$5\r\nhello\r\n"), b"$5\r\nhello\r\n");
}
