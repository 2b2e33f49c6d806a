use sharkbench::result_catalog::{
    catalog_get, read_existing_result_map, read_from_csv_content, set_contains, variant_get,
    CsvStructure,
};

#[test]
fn test_read_from_csv_content() {
    let mut map = Vec::new();
    read_from_csv_content(
        "header1,header2,lang_version,header4,header5,header6,framework_version,header8,header9,dir\n\
-,-,8,-,-,-,3,-,-,java/springboot-java\n\
-,-,17,-,-,-,3,-,-,java/springboot-java\n\
-,-,7,-,-,-,4.0,-,-,php/symfony-php\n\
-,-,8,-,-,-,5.0,-,-,php/symfony-php\n\
-,-,1.67,-,-,-,4,-,-,rust/actix-rust\n",
        CsvStructure { dir: 9, language_version: 2, framework_version: Some(6) },
        &mut map,
    );

    // Check length of map
    assert_eq!(map.len(), 3);

    // Check Java
    let java_map = catalog_get(&map, "java").expect("Java should exist");
    assert_eq!(java_map.len(), 1);

    let springboot = variant_get(java_map, "springboot-java").expect("springboot-java should exist");
    assert_eq!(springboot.language, "java");
    assert_eq!(springboot.variant, "springboot-java");
    assert_eq!(springboot.language_versions.len(), 2);
    assert!(set_contains(&springboot.language_versions, "8"));
    assert!(set_contains(&springboot.language_versions, "17"));
    assert_eq!(springboot.framework_versions.len(), 1);
    assert!(set_contains(&springboot.framework_versions, "3"));

    // Check PHP
    let php_map = catalog_get(&map, "php").expect("PHP should exist");
    assert_eq!(php_map.len(), 1);

    let symfony = variant_get(php_map, "symfony-php").expect("symfony-php should exist");
    assert_eq!(symfony.language, "php");
    assert_eq!(symfony.variant, "symfony-php");
    assert_eq!(symfony.language_versions.len(), 2);
    assert!(set_contains(&symfony.language_versions, "7"));
    assert!(set_contains(&symfony.language_versions, "8"));
    assert_eq!(symfony.framework_versions.len(), 2);
    assert!(set_contains(&symfony.framework_versions, "4.0"));
    assert!(set_contains(&symfony.framework_versions, "5.0"));

    // Check Rust
    let rust_map = catalog_get(&map, "rust").expect("Rust should exist");
    assert_eq!(rust_map.len(), 1);

    let actix = variant_get(rust_map, "actix-rust").expect("actix-rust should exist");
    assert_eq!(actix.language, "rust");
    assert_eq!(actix.variant, "actix-rust");
    assert_eq!(actix.language_versions.len(), 1);
    assert!(set_contains(&actix.language_versions, "1.67"));
    assert_eq!(actix.framework_versions.len(), 1);
    assert!(set_contains(&actix.framework_versions, "4"));
}

#[test]
fn reads_both_result_files_into_one_catalog() {
    let computation = "language,mode,version,path,time_median,memory_median\n\
rust,compiled,1.74,rust/rust-1.74,100,200\n";
    let web = "language,mode,version,framework,framework_stdlib,framework_website,framework_flavor,framework_version,concurrency,path,rps\n\
rust,compiled,1.74,actix,false,actix.rs,default,4,32,rust/actix-4,900\n";
    let catalog = read_existing_result_map(computation, web);
    let comp_rust = catalog_get(&catalog.computation, "rust").expect("computation rust");
    let entry = variant_get(comp_rust, "rust-1.74").expect("computation variant");
    assert!(set_contains(&entry.language_versions, "1.74"));
    assert_eq!(entry.framework_versions.len(), 0);

    let web_rust = catalog_get(&catalog.web, "rust").expect("web rust");
    let entry = variant_get(web_rust, "actix-4").expect("web variant");
    assert!(set_contains(&entry.language_versions, "1.74"));
    assert!(set_contains(&entry.framework_versions, "4"));
}
