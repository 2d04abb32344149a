//! What is known of a file or a directory besides its content, and the
//! hashes that name content.

use vstd::prelude::*;

verus! {

/// A SHA-1 hash.
#[derive(Clone, Copy, Debug, PartialEq, Eq, Hash)]
pub struct Sha1(pub [u8; 20]);

/// A SHA-256 hash.
#[derive(Clone, Copy, Debug, PartialEq, Eq, Hash)]
pub struct Sha256(pub [u8; 32]);

/// The hash by which the server names the content of a file.
#[derive(Clone, Copy, Debug, PartialEq, Eq, Hash)]
pub struct ContentId(pub [u8; 32]);

/// The hash by which the server names a directory.
#[derive(Clone, Copy, Debug, PartialEq, Eq, Hash)]
pub struct FsnodeId(pub [u8; 32]);

/// Directory entry metadata
#[derive(Clone, Copy, Debug, PartialEq, Eq)]
pub struct DirectoryMetadata {
    pub fsnode_id: Option<FsnodeId>,
    pub simple_format_sha1: Option<Sha1>,
    pub simple_format_sha256: Option<Sha256>,
    pub child_files_count: Option<u64>,
    pub child_files_total_size: Option<u64>,
    pub child_dirs_count: Option<u64>,
    pub descendant_files_count: Option<u64>,
    pub descendant_files_total_size: Option<u64>,
}

/// Which fields of `DirectoryMetadata` a client asks for.
#[derive(Clone, Copy, Debug, PartialEq, Eq, Structural)]
pub struct DirectoryMetadataRequest {
    pub with_fsnode_id: bool,
    pub with_simple_format_sha1: bool,
    pub with_simple_format_sha256: bool,
    pub with_child_files_count: bool,
    pub with_child_files_total_size: bool,
    pub with_child_dirs_count: bool,
    pub with_descendant_files_count: bool,
    pub with_descendant_files_total_size: bool,
}

#[derive(Clone, Copy, Debug, PartialEq, Eq, Structural)]
pub enum FileType {
    Regular,
    Executable,
    Symlink,
}

/// File entry metadata
#[derive(Clone, Copy, Debug, PartialEq, Eq)]
pub struct FileMetadata {
    pub revisionstore_flags: Option<u64>,
    pub content_id: Option<ContentId>,
    pub file_type: Option<FileType>,
    pub size: Option<u64>,
    pub content_sha1: Option<Sha1>,
    pub content_sha256: Option<Sha256>,
}

/// Which fields of `FileMetadata` a client asks for.
#[derive(Clone, Copy, Debug, PartialEq, Eq, Structural)]
pub struct FileMetadataRequest {
    pub with_revisionstore_flags: bool,
    pub with_content_id: bool,
    pub with_file_type: bool,
    pub with_size: bool,
    pub with_content_sha1: bool,
    pub with_content_sha256: bool,
}

/// One of the hashes that name the content of a file.
#[derive(Clone, Copy, Debug, PartialEq, Eq, Hash)]
pub enum AnyFileContentId {
    ContentId(ContentId),
    Sha1(Sha1),
    Sha256(Sha256),
}

/// Whether all of `bytes` are 0.
pub open spec fn all_zero(bytes: Seq<u8>) -> bool {
    forall|i: int| 0 <= i < bytes.len() ==> bytes[i] == 0
}

impl Default for DirectoryMetadata {
    fn default() -> (d: DirectoryMetadata)
        ensures
            d.fsnode_id.is_none(),
            d.simple_format_sha1.is_none(),
            d.simple_format_sha256.is_none(),
            d.child_files_count.is_none(),
            d.child_files_total_size.is_none(),
            d.child_dirs_count.is_none(),
            d.descendant_files_count.is_none(),
            d.descendant_files_total_size.is_none(),
    {
        DirectoryMetadata {
            fsnode_id: None,
            simple_format_sha1: None,
            simple_format_sha256: None,
            child_files_count: None,
            child_files_total_size: None,
            child_dirs_count: None,
            descendant_files_count: None,
            descendant_files_total_size: None,
        }
    }
}

impl Default for DirectoryMetadataRequest {
    fn default() -> (r: DirectoryMetadataRequest)
        ensures
            r == (DirectoryMetadataRequest {
                with_fsnode_id: false,
                with_simple_format_sha1: false,
                with_simple_format_sha256: false,
                with_child_files_count: false,
                with_child_files_total_size: false,
                with_child_dirs_count: false,
                with_descendant_files_count: false,
                with_descendant_files_total_size: false,
            }),
    {
        DirectoryMetadataRequest {
            with_fsnode_id: false,
            with_simple_format_sha1: false,
            with_simple_format_sha256: false,
            with_child_files_count: false,
            with_child_files_total_size: false,
            with_child_dirs_count: false,
            with_descendant_files_count: false,
            with_descendant_files_total_size: false,
        }
    }
}

impl Default for FileMetadata {
    fn default() -> (m: FileMetadata)
        ensures
            m.revisionstore_flags.is_none(),
            m.content_id.is_none(),
            m.file_type.is_none(),
            m.size.is_none(),
            m.content_sha1.is_none(),
            m.content_sha256.is_none(),
    {
        FileMetadata {
            revisionstore_flags: None,
            content_id: None,
            file_type: None,
            size: None,
            content_sha1: None,
            content_sha256: None,
        }
    }
}

impl Default for FileMetadataRequest {
    fn default() -> (r: FileMetadataRequest)
        ensures
            r == (FileMetadataRequest {
                with_revisionstore_flags: false,
                with_content_id: false,
                with_file_type: false,
                with_size: false,
                with_content_sha1: false,
                with_content_sha256: false,
            }),
    {
        FileMetadataRequest {
            with_revisionstore_flags: false,
            with_content_id: false,
            with_file_type: false,
            with_size: false,
            with_content_sha1: false,
            with_content_sha256: false,
        }
    }
}

impl Default for AnyFileContentId {
    fn default() -> (id: AnyFileContentId)
        ensures
            (id matches AnyFileContentId::ContentId(c) && all_zero(c.0@)),
    {
        AnyFileContentId::ContentId(ContentId([0u8; 32]))
    }
}

} // verus!
