use ruv::cache::package_cache_path;

#[test]
fn test_package_cache_path_format() {
    let cache = dirs::cache_dir().unwrap().join("arrrv");
    let path = package_cache_path(&cache.to_string_lossy(), "ggplot2", "3.5.1");
    assert!(path.ends_with("arrrv/packages/ggplot2_3.5.1"));
}

#[test]
fn package_cache_path_exact() {
    assert_eq!(
        package_cache_path("/home/u/.cache/arrrv", "nlme", "2.23-26"),
        "/home/u/.cache/arrrv/packages/nlme_2.23-26"
    );
}

#[test]
fn package_cache_path_joins_like_path_join() {
    assert_eq!(package_cache_path("/c/", "nlme", "1.0"), "/c/packages/nlme_1.0");
    assert_eq!(package_cache_path("", "nlme", "1.0"), "packages/nlme_1.0");
    assert_eq!(package_cache_path("/c", "/abs", "1.0"), "/abs_1.0");
    let joined = std::path::Path::new("/c").join("packages").join("a/b_1.0");
    assert_eq!(package_cache_path("/c", "a/b", "1.0"), joined.to_string_lossy());
}
