use docker_pool::compile::{compile, Body, BuildEvent, Error, Wasm};

#[test]
fn a_successful_build_returns_the_artifact() {
    let artifact = vec![0x00u8, 0x61, 0x73, 0x6d, 0x01, 0x00, 0x00, 0x00];
    match compile(BuildEvent::Built(artifact.clone())) {
        Ok(Wasm(bytes)) => assert_eq!(bytes, artifact),
        Err(_) => panic!("a successful build must return the artifact"),
    }
}

#[test]
fn the_artifact_is_served_as_wasm() {
    let wasm = Wasm(vec![1, 2, 3]);
    let content = wasm.into_content();
    assert_eq!(content.content_type, "application/wasm");
    assert_eq!(content.body, vec![1, 2, 3]);
}

#[test]
fn a_failed_build_is_a_client_error() {
    let outcome = compile(BuildEvent::BuildFailed("expected `;`".to_string()));
    match outcome {
        Err(err) => {
            assert!(matches!(err, Error::Compile(_)));
            assert_eq!(err.status_code(), 400);
            assert_eq!(err.summary(), "Could not compile app");
            assert_eq!(err.detail(), "expected `;`");
        }
        Ok(_) => panic!("a failed build must not return an artifact"),
    }
}

#[test]
fn an_io_failure_is_an_internal_error() {
    let outcome = compile(BuildEvent::IoFailed("no space left on device".to_string()));
    match outcome {
        Err(err) => {
            assert!(matches!(err, Error::Io(_)));
            assert_eq!(err.status_code(), 500);
            assert_eq!(err.summary(), "Io error");
            assert_eq!(err.detail(), "no space left on device");
        }
        Ok(_) => panic!("an I/O failure must not return an artifact"),
    }
}

#[test]
fn the_request_body_carries_the_source() {
    let body = Body {
        code: "fn main() {}".to_string(),
    };
    assert_eq!(body.code, "fn main() {}");
}
