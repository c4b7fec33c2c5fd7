use magicfs::{
    blob_name, blobs_dir, join_path, metadata_path, order_names, scratch_path, NameOrder,
};
use std::path::Path;

#[test]
fn blob_names_carry_at_least_twelve_digits() {
    assert_eq!(blob_name(0), "blob-000000000000");
    assert_eq!(blob_name(1), "blob-000000000001");
    assert_eq!(blob_name(90), "blob-000000000090");
    assert_eq!(blob_name(1234567), "blob-000001234567");
    assert_eq!(blob_name(999_999_999_999), "blob-999999999999");
    assert_eq!(blob_name(1_000_000_000_000), "blob-1000000000000");
    assert_eq!(blob_name(u64::MAX), "blob-18446744073709551615");
}

#[test]
fn blob_names_are_what_formatting_gives() {
    for n in [0, 7, 10, 99, 100, 314159, 27_182_818_284, u64::MAX - 1] {
        assert_eq!(blob_name(n), format!("blob-{:012}", n));
    }
}

#[test]
fn different_numbers_give_different_blob_names() {
    let names: Vec<String> = (0..200).map(blob_name).collect();
    for (i, a) in names.iter().enumerate() {
        for b in &names[i + 1..] {
            assert_ne!(a, b);
        }
    }
}

#[test]
fn names_are_ordered_by_their_bytes() {
    let names = ["", "a", "ab", "b", "B", "a.txt", "aa", "zz", "é", "日本", "𝄞", "ｚ", "~"];
    for a in names {
        for b in names {
            let expected = if a < b {
                NameOrder::Before
            } else if a == b {
                NameOrder::Same
            } else {
                NameOrder::After
            };
            assert_eq!(order_names(a, b), expected, "{} {}", a, b);
        }
    }
}

#[test]
fn paths_are_joined_as_the_system_joins_them() {
    for base in ["", "/", "store", "store/", "/tmp/magicfs-store", "a.b/c.d", "é/"] {
        for part in ["", "blobs", "metadata.json", "/etc/passwd", "x/y", "日本"] {
            let expected = Path::new(base).join(part);
            assert_eq!(Some(join_path(base, part).as_str()), expected.to_str());
        }
    }
}

#[test]
fn the_files_of_a_store_lie_in_its_directory() {
    assert_eq!(blobs_dir("/tmp/magicfs-store"), "/tmp/magicfs-store/blobs");
    assert_eq!(
        metadata_path("/tmp/magicfs-store"),
        "/tmp/magicfs-store/metadata.json"
    );
    assert_eq!(blobs_dir("store/"), "store/blobs");
    assert_eq!(metadata_path(""), "metadata.json");
}

#[test]
fn scratch_files_have_the_extension_tmp() {
    for store in ["/tmp/magicfs-store", "a.b", "", "x/"] {
        let metadata = metadata_path(store);
        let expected = Path::new(&metadata).with_extension("json.tmp");
        assert_eq!(Some(scratch_path(&metadata).as_str()), expected.to_str());

        let blob = join_path(&join_path(&blobs_dir(store), "bl"), &blob_name(7));
        let expected = Path::new(&blob).with_extension("tmp");
        assert_eq!(Some(scratch_path(&blob).as_str()), expected.to_str());
    }
}
