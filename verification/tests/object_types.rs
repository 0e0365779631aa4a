use git_objects::common::{
    get_hash_by_object_path, get_object_path_by_hash, ObjectMode, ObjectType,
};

#[test]
fn object_type_words() {
    assert_eq!("blob", ObjectType::Blob.to_str());
    assert_eq!("tree", ObjectType::Tree.to_str());
    assert_eq!("commit", ObjectType::Commit.to_str());
    assert_eq!("blob", ObjectType::Tag.to_str());
}

#[test]
fn object_type_from_word() {
    assert_eq!(ObjectType::Blob, ObjectType::try_from(b"blob".as_slice()).unwrap());
    assert_eq!(ObjectType::Tree, ObjectType::try_from(b"tree".as_slice()).unwrap());
    assert_eq!(ObjectType::Commit, ObjectType::try_from(b"commit".as_slice()).unwrap());
    assert_eq!(ObjectType::Tag, ObjectType::try_from(b"tag".as_slice()).unwrap());
    assert!(ObjectType::try_from(b"Blob".as_slice()).is_err());
    assert!(ObjectType::try_from(b"".as_slice()).is_err());
    assert!(ObjectType::try_from(b"blobs".as_slice()).is_err());
}

#[test]
fn object_mode_types() {
    assert_eq!(ObjectType::Tree, ObjectMode::Tree.get_type());
    assert_eq!(ObjectType::Blob, ObjectMode::Normal.get_type());
    assert_eq!(ObjectType::Blob, ObjectMode::Executable.get_type());
}

#[test]
fn object_mode_codes() {
    assert_eq!(100644, ObjectMode::Normal.code());
    assert_eq!(100755, ObjectMode::Executable.code());
    assert_eq!(120000, ObjectMode::Symlink.code());
    assert_eq!(40000, ObjectMode::Tree.code());
    assert_eq!(ObjectMode::Normal, ObjectMode::try_from(100644).unwrap());
    assert_eq!(ObjectMode::Executable, ObjectMode::try_from(100755).unwrap());
    assert_eq!(ObjectMode::Symlink, ObjectMode::try_from(120000).unwrap());
    assert_eq!(ObjectMode::Tree, ObjectMode::try_from(40000).unwrap());
    assert!(ObjectMode::try_from(0).is_err());
    assert!(ObjectMode::try_from(100645).is_err());
    assert!(ObjectMode::try_from(644).is_err());
}

#[test]
fn path_of_hash_and_back() {
    let hash = "bae42c55f9e0a4e297a4d197d8aadfe147ef269b";
    let path = get_object_path_by_hash(hash);
    assert_eq!(".git/objects/ba/e42c55f9e0a4e297a4d197d8aadfe147ef269b", path);
    assert_eq!(hash, get_hash_by_object_path(&path));
}

#[test]
fn hash_of_path_drops_only_the_first_slash() {
    assert_eq!("abcd/ef", get_hash_by_object_path(".git/objects/ab/cd/ef"));
    assert_eq!("ab", get_hash_by_object_path(".git/objects/ab/"));
}
