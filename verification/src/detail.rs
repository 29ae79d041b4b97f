//! The detail view of a Skill: its place in the catalog, its files, its tags
//! and groups, and a preview of one of its files.
use vstd::prelude::*;

use crate::duplicate::{is_text_content, text_content, utf8_text};
use crate::path::{outside_skill_message, outside_skill_message_owned, path_starts_with, path_starts_with_spec};
use crate::sorting::{sort_by_key, sorted_by_key, TextKeyed};
use crate::text::{split_terms, split_terms_spec, views};
use crate::{SkillInstance, SkillRoot, SkillWorkspace, WorkspaceError, WorkspaceSnapshot};

verus! {

/// One Skill with everything the detail view shows of it.
#[derive(Debug, Clone, PartialEq, Eq)]
pub struct SkillDetail {
    pub instance: SkillInstance,
    pub root: SkillRoot,
    pub tags: Vec<String>,
    pub skill_groups: Vec<String>,
    pub files: Vec<SkillFileEntry>,
    pub file_count: usize,
}

/// One entry of a Skill directory, by its path inside the directory.
#[derive(Debug, Clone, PartialEq, Eq)]
pub struct SkillFileEntry {
    pub relative_path: String,
    pub kind: SkillFileKind,
    pub size: u64,
    pub modified_at: i64,
}

/// What an entry of a Skill directory is.
#[derive(Debug, Clone, Copy, PartialEq, Eq)]
pub enum SkillFileKind {
    Directory,
    Text,
    Binary,
    SymbolicLink,
}

/// What the preview of a file shows: its text, or for other content its
/// size and, for a known image format, its media type and bytes.
#[derive(Debug, Clone, PartialEq, Eq)]
pub enum SkillFilePreview {
    Text { content: String },
    Binary { size: u64, media_type: Option<String>, preview_content: Option<Vec<u8>> },
}

impl TextKeyed for SkillFileEntry {
    open spec fn key_view(&self) -> Seq<char> {
        self.relative_path@
    }

    fn key(&self) -> (r: &str) {
        self.relative_path.as_str()
    }
}

/// The largest image that a preview carries, in bytes.
pub const MAX_PREVIEW_BYTES: usize = 5242880;

/// `i` is the first position of an instance with the id `id`.
pub open spec fn instance_at(instances: Seq<SkillInstance>, id: Seq<char>, i: int) -> bool {
    &&& 0 <= i < instances.len()
    &&& instances[i].id@ == id
    &&& forall|j: int| 0 <= j < i ==> #[trigger] instances[j].id@ != id
}

/// The first instance with the id `id`, if any.
pub open spec fn found_instance(instances: Seq<SkillInstance>, id: Seq<char>) -> Option<SkillInstance> {
    if exists|i: int| instance_at(instances, id, i) {
        Some(instances[choose|i: int| instance_at(instances, id, i)])
    } else {
        None
    }
}

/// `i` is the first position of a root with the id `id`.
pub open spec fn root_at(roots: Seq<SkillRoot>, id: i64, i: int) -> bool {
    &&& 0 <= i < roots.len()
    &&& roots[i].id == id
    &&& forall|j: int| 0 <= j < i ==> #[trigger] roots[j].id != id
}

/// The first root with the id `id`, if any.
pub open spec fn found_root(roots: Seq<SkillRoot>, id: i64) -> Option<SkillRoot> {
    if exists|i: int| root_at(roots, id, i) {
        Some(roots[choose|i: int| root_at(roots, id, i)])
    } else {
        None
    }
}

/// The message of an instance whose root is not in the catalog.
pub open spec fn missing_root_message() -> Seq<char> {
    "Skill 实例缺少根目录"@
}

/// How many entries are not directories.
pub open spec fn non_directory_count(entries: Seq<SkillFileEntry>) -> nat
    decreases entries.len(),
{
    if entries.len() == 0 {
        0
    } else {
        non_directory_count(entries.drop_last()) + (if entries.last().kind == SkillFileKind::Directory {
            0nat
        } else {
            1nat
        })
    }
}

/// Every entry that is not a directory counts as a file, symbolic links
/// included: the count is the number of such entries, and listing one more
/// entry raises it by one unless that entry is a directory.
pub proof fn file_count_counts_every_non_directory(entries: Seq<SkillFileEntry>, e: SkillFileEntry)
    ensures
        non_directory_count(entries) == entries.filter(
            |x: SkillFileEntry| x.kind != SkillFileKind::Directory,
        ).len(),
        non_directory_count(entries.push(e)) == non_directory_count(entries) + (if e.kind
            == SkillFileKind::Directory {
            0int
        } else {
            1int
        }),
        non_directory_count(entries) <= entries.len(),
    decreases entries.len(),
{
    let f = |x: SkillFileEntry| x.kind != SkillFileKind::Directory;
    assert(entries.push(e).drop_last() == entries);
    if entries.len() > 0 {
        file_count_counts_every_non_directory(entries.drop_last(), entries.last());
        assert(entries.drop_last().push(entries.last()) == entries);
        entries.drop_last().lemma_filter_push(entries.last(), f);
    } else {
        assert(entries.filter(f) =~= Seq::<SkillFileEntry>::empty());
    }
}

/// What looking an instance up in the catalog yields: the instance and its
/// root, or the error for a missing instance or a missing root.
pub open spec fn lookup_holds(
    snapshot: WorkspaceSnapshot,
    instance_id: Seq<char>,
    r: Result<(SkillInstance, SkillRoot), WorkspaceError>,
) -> bool {
    match found_instance(snapshot.instances@, instance_id) {
        None => r matches Err(WorkspaceError::UnknownInstance(m)) && m@ == instance_id,
        Some(instance) => match found_root(snapshot.roots@, instance.root_id) {
            None => r matches Err(WorkspaceError::InvalidRoot(m)) && m@ == missing_root_message(),
            Some(root) => r == Ok::<(SkillInstance, SkillRoot), WorkspaceError>((instance, root)),
        },
    }
}

proof fn lemma_instance_at_unique(instances: Seq<SkillInstance>, id: Seq<char>, i: int, j: int)
    requires
        instance_at(instances, id, i),
        instance_at(instances, id, j),
    ensures
        i == j,
{
    if i < j {
        assert(instances[i].id@ != id);
    } else if j < i {
        assert(instances[j].id@ != id);
    }
}

proof fn lemma_root_at_unique(roots: Seq<SkillRoot>, id: i64, i: int, j: int)
    requires
        root_at(roots, id, i),
        root_at(roots, id, j),
    ensures
        i == j,
{
    if i < j {
        assert(roots[i].id != id);
    } else if j < i {
        assert(roots[j].id != id);
    }
}

fn position_of_instance(instances: &Vec<SkillInstance>, id: &str) -> (r: Option<usize>)
    ensures
        match r {
            Some(i) => instance_at(instances@, id@, i as int),
            None => forall|i: int| !instance_at(instances@, id@, i),
        },
{
    let mut i: usize = 0;
    while i < instances.len()
        invariant
            i <= instances.len(),
            forall|j: int| 0 <= j < i ==> #[trigger] instances@[j].id@ != id@,
        decreases instances.len() - i,
    {
        if crate::text::str_eq(instances[i].id.as_str(), id) {
            return Some(i);
        }
        i += 1;
    }
    proof {
        assert forall|k: int| !instance_at(instances@, id@, k) by {
            if 0 <= k < instances@.len() {
                assert(instances@[k].id@ != id@);
            }
        }
    }
    None
}

fn position_of_root(roots: &Vec<SkillRoot>, id: i64) -> (r: Option<usize>)
    ensures
        match r {
            Some(i) => root_at(roots@, id, i as int),
            None => forall|i: int| !root_at(roots@, id, i),
        },
{
    let mut i: usize = 0;
    while i < roots.len()
        invariant
            i <= roots.len(),
            forall|j: int| 0 <= j < i ==> #[trigger] roots@[j].id != id,
        decreases roots.len() - i,
    {
        if roots[i].id == id {
            return Some(i);
        }
        i += 1;
    }
    proof {
        assert forall|k: int| !root_at(roots@, id, k) by {
            if 0 <= k < roots@.len() {
                assert(roots@[k].id != id);
            }
        }
    }
    None
}

/// The first instance with the id `id` (`Iterator::find`).
pub fn find_instance(instances: &Vec<SkillInstance>, id: &str) -> (r: Option<SkillInstance>)
    ensures
        r == found_instance(instances@, id@),
{
    match position_of_instance(instances, id) {
        None => {
            proof {
                assert(!(exists|i: int| instance_at(instances@, id@, i)));
            }
            None
        },
        Some(i) => {
            proof {
                let c = choose|k: int| instance_at(instances@, id@, k);
                lemma_instance_at_unique(instances@, id@, i as int, c);
            }
            Some(instances[i].copy())
        },
    }
}

/// The first root with the id `id` (`Iterator::find`).
pub fn find_root(roots: &Vec<SkillRoot>, id: i64) -> (r: Option<SkillRoot>)
    ensures
        r == found_root(roots@, id),
{
    match position_of_root(roots, id) {
        None => {
            proof {
                assert(!(exists|i: int| root_at(roots@, id, i)));
            }
            None
        },
        Some(k) => {
            proof {
                let c = choose|j: int| root_at(roots@, id, j);
                lemma_root_at_unique(roots@, id, k as int, c);
            }
            Some(roots[k].copy())
        },
    }
}

fn missing_root_message_owned() -> (r: String)
    ensures
        r@ == missing_root_message(),
{
    let r = "Skill 实例缺少根目录".to_owned();
    proof {
        reveal_strlit("Skill 实例缺少根目录");
    }
    r
}

/// The instance with the id `instance_id` and its root, as the catalog holds
/// them.
pub fn locate_instance(snapshot: &WorkspaceSnapshot, instance_id: &str) -> (r: Result<
    (SkillInstance, SkillRoot),
    WorkspaceError,
>)
    ensures
        lookup_holds(*snapshot, instance_id@, r),
{
    match find_instance(&snapshot.instances, instance_id) {
        None => Err(WorkspaceError::UnknownInstance(instance_id.to_owned())),
        Some(instance) => {
            match position_of_root(&snapshot.roots, instance.root_id) {
                None => {
                    proof {
                        assert(!(exists|k: int| root_at(snapshot.roots@, instance.root_id, k)));
                    }
                    Err(WorkspaceError::InvalidRoot(missing_root_message_owned()))
                },
                Some(k) => {
                    proof {
                        let c = choose|j: int| root_at(snapshot.roots@, instance.root_id, j);
                        lemma_root_at_unique(snapshot.roots@, instance.root_id, k as int, c);
                    }
                    Ok((instance, snapshot.roots[k].copy()))
                },
            }
        },
    }
}

fn count_non_directories(entries: &Vec<SkillFileEntry>) -> (r: usize)
    ensures
        r == non_directory_count(entries@),
{
    let mut count: usize = 0;
    let mut i: usize = 0;
    while i < entries.len()
        invariant
            i <= entries.len(),
            count == non_directory_count(entries@.take(i as int)),
            count <= i,
        decreases entries.len() - i,
    {
        proof {
            assert(entries@.take(i + 1).drop_last() == entries@.take(i as int));
        }
        match entries[i].kind {
            SkillFileKind::Directory => {},
            _ => {
                count += 1;
            },
        }
        i += 1;
    }
    proof {
        assert(entries@.take(entries@.len() as int) == entries@);
    }
    count
}

impl SkillWorkspace {
    /// The detail view of the instance `instance_id`: the instance and its
    /// root from the catalog `snapshot`, the entries of its directory sorted
    /// by path, how many of them are not directories, and its tags and groups
    /// from their stored newline-separated lists.
    pub fn skill_detail(
        &self,
        snapshot: &WorkspaceSnapshot,
        instance_id: &str,
        files: Vec<SkillFileEntry>,
        stored_tags: &str,
        stored_groups: &str,
    ) -> (r: Result<SkillDetail, WorkspaceError>)
        ensures
            match found_instance(snapshot.instances@, instance_id@) {
                None => r matches Err(WorkspaceError::UnknownInstance(m)) && m@ == instance_id@,
                Some(instance) => match found_root(snapshot.roots@, instance.root_id) {
                    None => r matches Err(WorkspaceError::InvalidRoot(m)) && m@
                        == missing_root_message(),
                    Some(root) => r matches Ok(d) && {
                        &&& d.instance == instance
                        &&& d.root == root
                        &&& views(d.tags@) == split_terms_spec(stored_tags@)
                        &&& views(d.skill_groups@) == split_terms_spec(stored_groups@)
                        &&& sorted_by_key(d.files@)
                        &&& d.files@.to_multiset() == files@.to_multiset()
                        &&& d.files@ == crate::sorting::insertion_sorted(files@)
                        &&& crate::sorting::keys_distinct(files@) ==> forall|i: int, j: int|
                            0 <= i < j < d.files@.len() ==> crate::text::text_lt(
                                #[trigger] d.files@[i].relative_path@,
                                #[trigger] d.files@[j].relative_path@,
                            )
                        &&& d.file_count == non_directory_count(d.files@)
                    },
                },
            },
    {
        match locate_instance(snapshot, instance_id) {
            Err(e) => Err(e),
            Ok((instance, root)) => {
                let ghost input = files@;
                let files = sort_by_key(files);
                proof {
                    if crate::sorting::keys_distinct(input) {
                        assert forall|i: int, j: int| 0 <= i < j < files@.len() implies crate::text::text_lt(
                            #[trigger] files@[i].relative_path@,
                            #[trigger] files@[j].relative_path@,
                        ) by {
                            assert(files@[i].key_view() != files@[j].key_view());
                            assert(crate::text::text_le(files@[i].key_view(), files@[j].key_view()));
                        }
                    }
                }
                let file_count = count_non_directories(&files);
                Ok(
                    SkillDetail {
                        instance,
                        root,
                        tags: split_terms(stored_tags),
                        skill_groups: split_terms(stored_groups),
                        files,
                        file_count,
                    },
                )
            },
        }
    }
}

/// What an entry is: a symbolic link, a directory, or a file that is text
/// when its first bytes `sample` hold no NUL byte and are valid UTF-8.
pub fn entry_kind(is_symlink: bool, is_dir: bool, sample: &[u8]) -> (r: SkillFileKind)
    ensures
        r == (if is_symlink {
            SkillFileKind::SymbolicLink
        } else if is_dir {
            SkillFileKind::Directory
        } else if is_text_content(sample@) {
            SkillFileKind::Text
        } else {
            SkillFileKind::Binary
        }),
{
    if is_symlink {
        SkillFileKind::SymbolicLink
    } else if is_dir {
        SkillFileKind::Directory
    } else if text_content(sample) {
        SkillFileKind::Text
    } else {
        SkillFileKind::Binary
    }
}

/// The bytes start with the PNG signature.
pub open spec fn is_png(b: Seq<u8>) -> bool {
    b.len() >= 4 && b[0] == 0x89u8 && b[1] == 0x50u8 && b[2] == 0x4eu8 && b[3] == 0x47u8
}

/// The bytes start with the JPEG signature.
pub open spec fn is_jpeg(b: Seq<u8>) -> bool {
    b.len() >= 3 && b[0] == 0xffu8 && b[1] == 0xd8u8 && b[2] == 0xffu8
}

/// The bytes start with `GIF87a` or `GIF89a`.
pub open spec fn is_gif(b: Seq<u8>) -> bool {
    &&& b.len() >= 6
    &&& b[0] == 0x47u8 && b[1] == 0x49u8 && b[2] == 0x46u8 && b[3] == 0x38u8
    &&& b[4] == 0x37u8 || b[4] == 0x39u8
    &&& b[5] == 0x61u8
}

/// The bytes are a RIFF container of WEBP data.
pub open spec fn is_webp(b: Seq<u8>) -> bool {
    &&& b.len() >= 12
    &&& b[0] == 0x52u8 && b[1] == 0x49u8 && b[2] == 0x46u8 && b[3] == 0x46u8
    &&& b[8] == 0x57u8 && b[9] == 0x45u8 && b[10] == 0x42u8 && b[11] == 0x50u8
}

/// The media type of an image format that the preview shows.
pub open spec fn media_type_spec(b: Seq<u8>) -> Option<Seq<char>> {
    if is_png(b) {
        Some("image/png"@)
    } else if is_jpeg(b) {
        Some("image/jpeg"@)
    } else if is_gif(b) {
        Some("image/gif"@)
    } else if is_webp(b) {
        Some("image/webp"@)
    } else {
        None
    }
}

/// The media type of the bytes when they start like a PNG, JPEG, GIF or WEBP
/// image.
pub fn previewable_media_type(bytes: &[u8]) -> (r: Option<&'static str>)
    ensures
        match r {
            Some(t) => media_type_spec(bytes@) == Some(t@),
            None => media_type_spec(bytes@) is None,
        },
{
    let n = bytes.len();
    if n >= 4 && bytes[0] == 0x89 && bytes[1] == 0x50 && bytes[2] == 0x4e && bytes[3] == 0x47 {
        proof {
            reveal_strlit("image/png");
        }
        Some("image/png")
    } else if n >= 3 && bytes[0] == 0xff && bytes[1] == 0xd8 && bytes[2] == 0xff {
        proof {
            reveal_strlit("image/jpeg");
        }
        Some("image/jpeg")
    } else if n >= 6 && bytes[0] == 0x47 && bytes[1] == 0x49 && bytes[2] == 0x46 && bytes[3] == 0x38
        && (bytes[4] == 0x37 || bytes[4] == 0x39) && bytes[5] == 0x61 {
        proof {
            reveal_strlit("image/gif");
        }
        Some("image/gif")
    } else if n >= 12 && bytes[0] == 0x52 && bytes[1] == 0x49 && bytes[2] == 0x46 && bytes[3] == 0x46
        && bytes[8] == 0x57 && bytes[9] == 0x45 && bytes[10] == 0x42 && bytes[11] == 0x50 {
        proof {
            reveal_strlit("image/webp");
        }
        Some("image/webp")
    } else {
        None
    }
}

/// The preview of a file with the content `bytes`: its text when it is valid
/// UTF-8; otherwise its size, its media type, and the bytes themselves for an
/// image of at most `MAX_PREVIEW_BYTES`.
pub fn file_preview(bytes: Vec<u8>) -> (r: SkillFilePreview)
    ensures
        match r {
            SkillFilePreview::Text { content } => vstd::utf8::valid_utf8(bytes@) && content@
                == vstd::utf8::decode_utf8(bytes@),
            SkillFilePreview::Binary { size, media_type, preview_content } => {
                &&& !vstd::utf8::valid_utf8(bytes@)
                &&& size == bytes@.len()
                &&& match media_type {
                    Some(t) => media_type_spec(bytes@) == Some(t@),
                    None => media_type_spec(bytes@) is None,
                }
                &&& match preview_content {
                    Some(p) => media_type_spec(bytes@) is Some && bytes@.len() <= MAX_PREVIEW_BYTES
                        && p@ == bytes@,
                    None => !(media_type_spec(bytes@) is Some && bytes@.len()
                        <= MAX_PREVIEW_BYTES),
                }
            },
        },
{
    match utf8_text(bytes.as_slice()) {
        Some(content) => SkillFilePreview::Text { content },
        None => {
            let media = previewable_media_type(bytes.as_slice());
            let size = bytes.len() as u64;
            let showable = media.is_some() && bytes.len() <= MAX_PREVIEW_BYTES;
            let media_type = match media {
                Some(t) => Some(t.to_owned()),
                None => None,
            };
            let preview_content = if showable {
                Some(bytes)
            } else {
                None
            };
            SkillFilePreview::Binary { size, media_type, preview_content }
        },
    }
}

/// The message of a preview request that names something other than a file.
pub open spec fn not_a_file_message() -> Seq<char> {
    "所选路径不是文件"@
}

/// Checks the resolved location `target` of a preview request against the
/// resolved Skill directory `base`: it must lie inside it and be a file.
pub fn check_preview_target(base: &str, target: &str, is_file: bool) -> (r: Result<(), WorkspaceError>)
    ensures
        !path_starts_with_spec(target@, base@) ==> (r matches Err(WorkspaceError::InvalidSkillPath(m))
            && m@ == outside_skill_message()),
        path_starts_with_spec(target@, base@) && !is_file ==> (r matches Err(
            WorkspaceError::InvalidSkillPath(m),
        ) && m@ == not_a_file_message()),
        path_starts_with_spec(target@, base@) && is_file ==> r is Ok,
{
    if !path_starts_with(target, base) {
        return Err(WorkspaceError::InvalidSkillPath(outside_skill_message_owned()));
    }
    if !is_file {
        let m = "所选路径不是文件".to_owned();
        proof {
            reveal_strlit("所选路径不是文件");
        }
        return Err(WorkspaceError::InvalidSkillPath(m));
    }
    Ok(())
}

} // verus!
