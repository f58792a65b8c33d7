use resource_packer::lz77::buffer_compress;
use resource_packer::resource::{
    check_file, generate_artifact, plan_build, CompressionType, FileCheckResult, PackError, Resource,
};

fn res(id: &str, path: &str) -> Resource {
    Resource {
        id: id.to_string(),
        compression: CompressionType::NONE,
        filepath: path.to_string(),
    }
}

#[test]
fn freshness_of_all_four_fixtures() {
    assert_eq!(check_file(Some(100), Some(99)), FileCheckResult::BinOutOfDate);
    assert_eq!(check_file(Some(100), Some(100)), FileCheckResult::FileOkay);
    assert_eq!(check_file(Some(100), Some(101)), FileCheckResult::FileOkay);
    assert_eq!(check_file(Some(100), None), FileCheckResult::BinMissing);
    assert_eq!(check_file(None, Some(5)), FileCheckResult::BaseMissing);
    assert_eq!(check_file(None, None), FileCheckResult::BaseMissing);
}

#[test]
fn only_missing_or_stale_artifacts_regenerate() {
    assert!(FileCheckResult::BinMissing.needs_regeneration());
    assert!(FileCheckResult::BinOutOfDate.needs_regeneration());
    assert!(!FileCheckResult::FileOkay.needs_regeneration());
    assert!(!FileCheckResult::BaseMissing.needs_regeneration());
}

#[test]
fn plan_lists_entries_to_regenerate() {
    let resources = vec![res("a", "a.txt"), res("b", "b.txt"), res("c", "c.txt")];
    let checks = vec![
        FileCheckResult::BinMissing,
        FileCheckResult::FileOkay,
        FileCheckResult::BinOutOfDate,
    ];
    assert_eq!(plan_build(&resources, &checks), Ok(vec![0, 2]));
}

#[test]
fn missing_source_fails_the_whole_build() {
    let resources = vec![res("a", "a.txt"), res("b", "b.txt"), res("c", "c.txt")];
    let checks = vec![
        FileCheckResult::FileOkay,
        FileCheckResult::BaseMissing,
        FileCheckResult::BaseMissing,
    ];
    assert_eq!(
        plan_build(&resources, &checks),
        Err(PackError::MissingBaseFile("b.txt".to_string()))
    );
}

#[test]
fn file_paths() {
    let r = res("a", "textures/stone.png");
    assert_eq!(r.get_file_path(), "textures/stone.png");
    assert_eq!(r.get_data_file_path(), "textures/stone.bin");
    assert_eq!(res("b", "noext").get_data_file_path(), "noext.bin");
}

#[test]
fn artifacts_by_compression() {
    let data = b"abcabcabcabcabc".to_vec();
    assert_eq!(generate_artifact(&data, CompressionType::NONE), data);
    assert_eq!(generate_artifact(&data, CompressionType::LZ77), buffer_compress(&data));
    assert!(generate_artifact(&data, CompressionType::LZ77).len() < 4 * data.len());
}
