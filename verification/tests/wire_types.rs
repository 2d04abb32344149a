use segmented_changelog::edenapi::anyid::AnyId;
use segmented_changelog::edenapi::anyid::LookupRequest;
use segmented_changelog::edenapi::metadata::AnyFileContentId;
use segmented_changelog::edenapi::metadata::ContentId;
use segmented_changelog::edenapi::metadata::DirectoryMetadata;
use segmented_changelog::edenapi::metadata::DirectoryMetadataRequest;
use segmented_changelog::edenapi::metadata::FileMetadata;
use segmented_changelog::edenapi::metadata::FileMetadataRequest;
use segmented_changelog::edenapi::metadata::FileType;
use segmented_changelog::edenapi::metadata::Sha256;
use segmented_changelog::edenapi::wire::EdenApiServerErrorKind;
use segmented_changelog::edenapi::wire::HgId;
use segmented_changelog::edenapi::wire::Parents;
use segmented_changelog::edenapi::wire::RevisionstoreMetadata;
use segmented_changelog::edenapi::wire::TryFromBytesError;
use segmented_changelog::edenapi::wire::WireDagId;
use segmented_changelog::edenapi::wire::WireEdenApiServerError;
use segmented_changelog::edenapi::wire::WireHgId;
use segmented_changelog::edenapi::wire::WireParents;
use segmented_changelog::edenapi::wire::WireRevisionstoreMetadata;
use segmented_changelog::edenapi::wire::WireToApiConversionError;
use segmented_changelog::id::Id;
use segmented_changelog::storekey::ContentHash;
use segmented_changelog::storekey::Key;
use segmented_changelog::storekey::StoreKey;

fn hgid(fill: u8) -> HgId {
    HgId([fill; 20])
}

#[test]
fn ids_travel_as_their_numbers() {
    for n in [0u64, 1, 1 << 56, u64::MAX] {
        assert_eq!(Id(n).to_wire(), WireDagId(n));
        assert_eq!(WireDagId(n).to_api(), Id(n));
        assert_eq!(Id(n).to_wire().to_api(), Id(n));
    }
    assert_eq!(WireDagId::default(), WireDagId(0));
}

#[test]
fn parents_travel_and_come_back() {
    for p in [
        Parents::NoParents,
        Parents::One(hgid(1)),
        Parents::Two(hgid(1), hgid(2)),
    ] {
        assert_eq!(p.to_wire().to_api(), Ok(p));
    }
    assert_eq!(Parents::One(hgid(7)).to_wire(), WireParents::One(WireHgId([7; 20])));
    assert_eq!(
        WireParents::Unknown.to_api(),
        Err(WireToApiConversionError::UnrecognizedEnumVariant("WireParents"))
    );
    assert_eq!(WireParents::default(), WireParents::NoParents);
    assert_eq!(hgid(9).to_wire().to_api(), hgid(9));
}

#[test]
fn hashes_are_made_of_twenty_bytes() {
    let bytes: Vec<u8> = (0u8..20).collect();
    let id = HgId::from_slice(&bytes).unwrap();
    assert_eq!(id.0.to_vec(), bytes);
    assert_eq!(
        HgId::from_slice(&bytes[..19]),
        Err(TryFromBytesError { expected_len: 20, found_len: 19 })
    );
    assert_eq!(
        HgId::from_slice(&[0; 21]),
        Err(TryFromBytesError { expected_len: 20, found_len: 21 })
    );
    assert_eq!(
        HgId::from_slice(&[]),
        Err(TryFromBytesError { expected_len: 20, found_len: 0 })
    );
}

#[test]
fn errors_and_metadata_travel_and_come_back() {
    let error = EdenApiServerErrorKind::OpaqueError("boom".to_string());
    assert_eq!(
        error.clone().to_wire(),
        WireEdenApiServerError::OpaqueError("boom".to_string())
    );
    assert_eq!(error.clone().to_wire().to_api(), Ok(error));
    assert_eq!(
        WireEdenApiServerError::Unknown.to_api(),
        Err(WireToApiConversionError::UnrecognizedEnumVariant("WireEdenApiServerError"))
    );
    let meta = RevisionstoreMetadata { size: Some(12), flags: None };
    assert_eq!(
        meta.to_wire(),
        WireRevisionstoreMetadata { size: Some(12), flags: None }
    );
    assert_eq!(meta.to_wire().to_api(), meta);
    assert_eq!(
        WireRevisionstoreMetadata::default(),
        WireRevisionstoreMetadata { size: None, flags: None }
    );
}

#[test]
fn requests_ask_for_nothing_by_default() {
    let d = DirectoryMetadataRequest::default();
    assert!(!d.with_fsnode_id && !d.with_child_files_count && !d.with_descendant_files_total_size);
    let f = FileMetadataRequest::default();
    assert!(!f.with_content_id && !f.with_size && !f.with_content_sha256);
    let dm = DirectoryMetadata::default();
    assert!(dm.fsnode_id.is_none() && dm.child_dirs_count.is_none());
    let fm = FileMetadata::default();
    assert!(fm.file_type.is_none() && fm.size.is_none());
    assert_eq!(
        FileMetadata { file_type: Some(FileType::Symlink), ..fm }.file_type,
        Some(FileType::Symlink)
    );
    assert_eq!(
        AnyFileContentId::default(),
        AnyFileContentId::ContentId(ContentId([0; 32]))
    );
    assert_eq!(
        AnyId::default(),
        AnyId::AnyFileContentId(AnyFileContentId::ContentId(ContentId([0; 32])))
    );
    let request = LookupRequest::default();
    assert_eq!(request.id, AnyId::default());
    assert_eq!(request.bubble_id, None);
}

#[test]
fn store_keys_hold_a_key_or_a_hash() {
    let key = Key { path: "a/b".to_string(), hgid: hgid(3) };
    let hash = ContentHash::Sha256(Sha256([5; 32]));
    assert_eq!(hash.clone().unwrap_sha256(), Sha256([5; 32]));
    assert_eq!(StoreKey::hgid(key.clone()), StoreKey::HgId(key.clone()));
    assert_eq!(StoreKey::content(hash.clone()), StoreKey::Content(hash.clone(), None));
    assert_eq!(StoreKey::hgid(key.clone()).maybe_into_key(), Some(key.clone()));
    assert_eq!(StoreKey::content(hash.clone()).maybe_into_key(), None);
    assert_eq!(
        StoreKey::Content(hash.clone(), Some(key.clone())).maybe_into_key(),
        Some(key.clone())
    );
    assert_eq!(StoreKey::hgid(key.clone()).maybe_as_key(), Some(&key));
    assert_eq!(StoreKey::content(hash.clone()).maybe_as_key(), None);
    assert_eq!(StoreKey::Content(hash, Some(key.clone())).maybe_as_key(), Some(&key));
}
