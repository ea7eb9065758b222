use loom::platform::DefaultPlatform;

#[test]
fn platform_starts() {
    let _p: DefaultPlatform = DefaultPlatform::init();
}
